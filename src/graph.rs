//! The store of values and links, and the event graph that propagates
//! changes: a downward walk that discovers the affected links, then an upward
//! walk that runs each of them after the links upstream of it.
use std::rc::Rc;
use vstd::prelude::*;
use vstd::std_specs::cmp::PartialEqSpec;
use crate::list::{splice_seq, Change, ListMut_};
use crate::prim::{HistPrimMut_, PrimMut_};

verus! {

/// A unique id for every value and link of a graph. Ids start from 1; 0 is
/// never issued.
pub type Id = usize;

pub const NULL_ID: Id = 0;

/// What a value holds, by variant.
pub enum ValueState<T> {
    Prim(PrimMut_<T>),
    Hist(HistPrimMut_<T>),
    List(ListMut_<T>),
}

impl<T> ValueState<T> {
    pub open spec fn wf(self) -> bool {
        match self {
            ValueState::List(l) => l.wf(),
            _ => true,
        }
    }

    /// Whether the value holds per-event state that cleanup has to clear.
    pub open spec fn is_dirty(self) -> bool {
        match self {
            ValueState::Prim(p) => !p.first_change,
            ValueState::Hist(h) => h.previous_value is Some,
            ValueState::List(l) => l.changes@.len() > 0,
        }
    }

    pub open spec fn same_kind(self, other: Self) -> bool {
        match (self, other) {
            (ValueState::Prim(_), ValueState::Prim(_)) => true,
            (ValueState::Hist(_), ValueState::Hist(_)) => true,
            (ValueState::List(_), ValueState::List(_)) => true,
            _ => false,
        }
    }

    /// Both states hold the same payload.
    pub open spec fn same_payload(self, other: Self) -> bool {
        match (self, other) {
            (ValueState::Prim(a), ValueState::Prim(b)) => a.value == b.value,
            (ValueState::Hist(a), ValueState::Hist(b)) => a.value == b.value,
            (ValueState::List(a), ValueState::List(b)) => a.value@ == b.value@,
            _ => false,
        }
    }

    /// Drops the per-event state: the dirty flag, the previous snapshot or
    /// the change log.
    fn clean(&mut self)
        requires
            old(self).wf(),
        ensures
            final(self).wf(),
            !final(self).is_dirty(),
            final(self).same_payload(*old(self)),
    {
        match self {
            ValueState::Prim(p) => {
                p.first_change = true;
            },
            ValueState::Hist(h) => {
                h.previous_value = None;
            },
            ValueState::List(l) => {
                l.changes.clear();
                l.base = Ghost(l.value@);
            },
        }
    }
}

impl<T> ValueState<T> {
    /// Writes `x` into a history-aware scalar, keeping the first snapshot of
    /// the event; tells whether this was the first change of the event.
    fn write_hist(&mut self, x: T) -> (first: bool)
        requires
            *old(self) is Hist,
        ensures
            first == ((*old(self))->Hist_0.previous_value is None),
            hist_written(*old(self), *final(self), x),
    {
        match self {
            ValueState::Hist(h) => {
                let first = h.previous_value.is_none();
                let mut prev = x;
                std::mem::swap(&mut h.value, &mut prev);
                if first {
                    h.previous_value = Some(prev);
                }
                first
            },
            _ => false,
        }
    }
}

impl<T: Copy> ValueState<T> {
    /// Splices a list; tells whether this was its first change of the
    /// event, and returns the removed elements.
    fn splice_list(&mut self, offset: usize, remove: usize, add: Vec<T>) -> (r: (bool, Vec<T>))
        requires
            *old(self) is List,
            old(self).wf(),
            offset + remove <= (*old(self))->List_0.value@.len(),
        ensures
            *final(self) is List,
            final(self).wf(),
            (*final(self))->List_0.base == (*old(self))->List_0.base,
            r.0 == ((*old(self))->List_0.changes@.len() == 0),
            r.1@ == (*old(self))->List_0.value@.subrange(offset as int, offset + remove),
            (*final(self))->List_0.value@ == splice_seq((*old(self))->List_0.value@, offset as int, remove as int, add@),
            (*final(self))->List_0.changes@ == (*old(self))->List_0.changes@.push(Change { offset: offset, remove: remove, add: add }),
            final(self).is_dirty(),
    {
        match self {
            ValueState::List(l) => {
                let first = l.changes.len() == 0;
                let removed = l.splice_(offset, remove, add);
                (first, removed)
            },
            _ => (false, Vec::new()),
        }
    }
}

pub(crate) struct Slot<T> {
    pub(crate) id: Id,
    pub(crate) state: ValueState<T>,
    pub(crate) next: Vec<usize>,
}

pub(crate) struct LinkMeta {
    pub(crate) id: Id,
    pub(crate) owner: Rc<()>,
}

/// Relies on `Rc::strong_count`: the number of `Rc` handles that share the
/// allocation, the one passed in included.
#[verifier::external_body]
fn strong_count(owner: &Rc<()>) -> (r: usize)
    ensures
        r >= 1,
{
    Rc::strong_count(owner)
}

/// The store of a graph: every value, the bookkeeping of every link, and the
/// per-event state of propagation. Link bodies receive it to read and write
/// values and to create new values and links.
pub struct ProcessingContext<T, L> {
    values: Vec<Slot<T>>,
    links: Vec<LinkMeta>,
    new_bodies: Vec<L>,
    stored: usize,
    fresh_from: usize,
    seeds: Vec<usize>,
    cleanup: Vec<usize>,
    processing: bool,
    ids: usize,
}

impl<T, L> ProcessingContext<T, L> {
    pub closed spec fn value_count(&self) -> nat {
        self.values@.len()
    }

    pub closed spec fn value_id(&self, i: int) -> Id {
        self.values@[i].id
    }

    pub closed spec fn state(&self, i: int) -> ValueState<T> {
        self.values@[i].state
    }

    /// The links registered downstream of value `i`, in insertion order.
    pub closed spec fn downstream(&self, i: int) -> Seq<usize> {
        self.values@[i].next@
    }

    pub closed spec fn link_count(&self) -> nat {
        self.links@.len()
    }

    pub closed spec fn link_id(&self, i: int) -> Id {
        self.links@[i].id
    }

    /// Links scheduled for the next propagation round.
    pub closed spec fn seeds(&self) -> Seq<usize> {
        self.seeds@
    }

    /// Values enrolled for end-of-event cleanup.
    pub closed spec fn touched(&self) -> Seq<usize> {
        self.cleanup@
    }

    /// The id the next value or link will get.
    pub closed spec fn next_id(&self) -> nat {
        self.ids as nat
    }

    /// Whether propagation (the second phase of an event) is under way.
    pub closed spec fn in_propagation(&self) -> bool {
        self.processing
    }

    /// The number of link bodies the graph has stored.
    pub closed spec fn stored_links(&self) -> nat {
        self.stored as nat
    }

    /// Links created from this index on are all seeds.
    pub closed spec fn fresh_from(&self) -> nat {
        self.fresh_from as nat
    }

    /// Bodies of the links created since the graph last stored them.
    pub closed spec fn new_bodies(&self) -> Seq<L> {
        self.new_bodies@
    }

    pub open spec fn valid_value(&self, i: int) -> bool {
        0 <= i < self.value_count()
    }

    pub open spec fn valid_link(&self, l: int) -> bool {
        0 <= l < self.link_count()
    }

    /// `next` is `self` after writing `x` into the history-aware scalar `v`
    /// (a write that was not suppressed).
    pub open spec fn hist_set(&self, next: &Self, v: int, x: T) -> bool {
        &&& hist_written(self.state(v), next.state(v), x)
        &&& self.write_effect(next, v, self.state(v)->Hist_0.previous_value is None)
        &&& next.new_bodies() == self.new_bodies()
    }

    /// Both hold the same values: same count, ids and states.
    pub open spec fn same_values(&self, other: &Self) -> bool {
        &&& self.value_count() == other.value_count()
        &&& forall|i: int|
            0 <= i < self.value_count() ==> #[trigger] other.state(i) == self.state(i) && other.value_id(i)
                == self.value_id(i)
    }

    /// `self` is `prev` after cleanup: the same values with the same
    /// payloads, none holding per-event state.
    pub open spec fn cleaned_from(&self, prev: &Self) -> bool {
        &&& self.value_count() == prev.value_count()
        &&& forall|i: int|
            0 <= i < self.value_count() ==> {
                &&& (#[trigger] self.state(i)).same_payload(prev.state(i))
                &&& !self.state(i).is_dirty()
                &&& self.value_id(i) == prev.value_id(i)
            }
    }

    /// No link is scheduled, no value is enrolled for cleanup, and no
    /// propagation is under way: the state between events.
    pub open spec fn quiescent(&self) -> bool {
        &&& self.seeds().len() == 0
        &&& self.touched().len() == 0
        &&& !self.in_propagation()
    }

    pub open spec fn id_room(&self) -> bool {
        self.next_id() < usize::MAX
    }

    pub closed spec fn wf(&self) -> bool {
        &&& forall|i: int| 0 <= i < self.values@.len() ==> #[trigger] self.values@[i].state.wf()
        &&& forall|i: int, k: int|
            0 <= i < self.values@.len() && 0 <= k < self.values@[i].next@.len()
                ==> #[trigger] self.values@[i].next@[k] < self.links@.len()
        &&& forall|i: usize|
            i < self.values@.len() && (#[trigger] self.values@[i as int].state).is_dirty()
                ==> self.cleanup@.contains(i)
        &&& forall|k: int| 0 <= k < self.cleanup@.len() ==> #[trigger] self.cleanup@[k] < self.values@.len()
        &&& forall|k: int| 0 <= k < self.seeds@.len() ==> #[trigger] self.seeds@[k] < self.links@.len()
        &&& forall|l: usize| self.fresh_from <= l < self.links@.len() ==> #[trigger] self.seeds@.contains(l)
        &&& self.fresh_from <= self.links@.len()
        &&& self.links@.len() == self.stored + self.new_bodies@.len()
        &&& forall|i: int| 0 <= i < self.values@.len() ==> 1 <= #[trigger] self.values@[i].id < self.ids
        &&& forall|l: int| 0 <= l < self.links@.len() ==> 1 <= #[trigger] self.links@[l].id < self.ids
        &&& 1 <= self.ids
    }

    /// `wf`, except that value `v` may be dirty without being enrolled for
    /// cleanup yet.
    pub closed spec fn wf_but(&self, v: int) -> bool {
        &&& forall|i: int| 0 <= i < self.values@.len() ==> #[trigger] self.values@[i].state.wf()
        &&& forall|i: int, k: int|
            0 <= i < self.values@.len() && 0 <= k < self.values@[i].next@.len()
                ==> #[trigger] self.values@[i].next@[k] < self.links@.len()
        &&& forall|i: usize|
            i < self.values@.len() && i != v && (#[trigger] self.values@[i as int].state).is_dirty()
                ==> self.cleanup@.contains(i)
        &&& forall|k: int| 0 <= k < self.cleanup@.len() ==> #[trigger] self.cleanup@[k] < self.values@.len()
        &&& forall|k: int| 0 <= k < self.seeds@.len() ==> #[trigger] self.seeds@[k] < self.links@.len()
        &&& forall|l: usize| self.fresh_from <= l < self.links@.len() ==> #[trigger] self.seeds@.contains(l)
        &&& self.fresh_from <= self.links@.len()
        &&& self.links@.len() == self.stored + self.new_bodies@.len()
        &&& forall|i: int| 0 <= i < self.values@.len() ==> 1 <= #[trigger] self.values@[i].id < self.ids
        &&& forall|l: int| 0 <= l < self.links@.len() ==> 1 <= #[trigger] self.links@[l].id < self.ids
        &&& 1 <= self.ids
    }

    /// `next` is what this context can become through its own operations:
    /// nothing is removed, ids and variants stay, the bookkeeping of the
    /// event graph is untouched.
    pub open spec fn grows_to(&self, next: &Self) -> bool {
        &&& self.extends(next)
        &&& self.next_id() <= next.next_id()
        &&& next.stored_links() == self.stored_links()
        &&& next.fresh_from() == self.fresh_from()
        &&& next.in_propagation() == self.in_propagation()
        &&& seeds_extend(self.seeds(), next.seeds())
        &&& next.next_id() - self.next_id() == (next.value_count() - self.value_count()) + (next.link_count()
            - self.link_count())
    }

    /// Every value and link of `self` is in `next` with the same id, and
    /// every value keeps its variant: handles valid in `self` stay valid.
    pub open spec fn extends(&self, next: &Self) -> bool {
        &&& self.value_count() <= next.value_count()
        &&& self.link_count() <= next.link_count()
        &&& forall|i: int|
            0 <= i < self.value_count() ==> {
                &&& next.value_id(i) == self.value_id(i)
                &&& (#[trigger] next.state(i)).same_kind(self.state(i))
            }
        &&& forall|l: int| 0 <= l < self.link_count() ==> #[trigger] next.link_id(l) == self.link_id(l)
    }

    /// Every value but `except` keeps its id, state and downstream links.
    pub open spec fn keeps_values(&self, next: &Self, except: int) -> bool {
        forall|j: int|
            0 <= j < self.value_count() && j != except ==> {
                &&& #[trigger] next.state(j) == self.state(j)
                &&& next.downstream(j) == self.downstream(j)
                &&& next.value_id(j) == self.value_id(j)
            }
    }

    /// The scheduling state (seeds and cleanup registry) is the same in both.
    pub open spec fn same_schedule(&self, next: &Self) -> bool {
        &&& next.seeds() == self.seeds()
        &&& next.touched() == self.touched()
    }

    /// The effect of a write to value `v` beyond its state: the first change
    /// of the event (`first`) enrols `v` for cleanup and schedules its active
    /// downstream links, dropping dead entries from its fan-out list; a later
    /// change leaves the schedule alone.
    pub open spec fn write_effect(&self, next: &Self, v: int, first: bool) -> bool {
        &&& next.value_count() == self.value_count()
        &&& next.link_count() == self.link_count()
        &&& self.keeps_values(next, v)
        &&& first ==> {
            &&& is_live_selection(next.downstream(v), self.downstream(v))
            &&& next.seeds() == self.seeds() + next.downstream(v)
            &&& next.touched() == self.touched().push(v as usize)
        }
        &&& !first ==> {
            &&& next.downstream(v) == self.downstream(v)
            &&& self.same_schedule(next)
        }
    }

    /// What `grows_to` keeps: ids and variants of existing values, ids of
    /// existing links, and the counts, which only grow.
    pub proof fn lemma_grows_to(&self, next: &Self)
        requires
            self.grows_to(next),
        ensures
            self.value_count() <= next.value_count(),
            self.link_count() <= next.link_count(),
            self.next_id() <= next.next_id(),
            next.in_propagation() == self.in_propagation(),
            forall|i: int|
                0 <= i < self.value_count() ==> #[trigger] next.value_id(i) == self.value_id(i)
                    && next.state(i).same_kind(self.state(i)),
            forall|l: int| 0 <= l < self.link_count() ==> #[trigger] next.link_id(l) == self.link_id(l),
    {
    }

    /// Every value of a consistent context is consistent.
    pub proof fn lemma_state_wf(&self, i: int)
        requires
            self.wf(),
            self.valid_value(i),
        ensures
            self.state(i).wf(),
    {
    }

    /// A context grows to itself.
    pub proof fn lemma_grows_to_refl(&self)
        ensures
            self.grows_to(self),
    {
    }

    /// Growing is transitive.
    pub proof fn lemma_grows_to_trans(&self, mid: &Self, next: &Self)
        requires
            self.grows_to(mid),
            mid.grows_to(next),
        ensures
            self.grows_to(next),
    {
    }

    /// Holding the same values is transitive.
    pub proof fn lemma_same_values_trans(&self, mid: &Self, next: &Self)
        requires
            self.same_values(mid),
            mid.same_values(next),
        ensures
            self.same_values(next),
    {
        assert forall|i: int| 0 <= i < self.value_count() implies #[trigger] next.state(i) == self.state(i) && next.value_id(i)
            == self.value_id(i) by {
            assert(mid.state(i) == self.state(i));
        }
    }

    /// Extending is transitive.
    pub proof fn lemma_extends_trans(&self, mid: &Self, next: &Self)
        requires
            self.extends(mid),
            mid.extends(next),
        ensures
            self.extends(next),
    {
    }

    fn take_id(&mut self) -> (r: Id)
        requires
            old(self).ids < usize::MAX,
        ensures
            r == old(self).ids,
            final(self).ids == old(self).ids + 1,
            final(self).values == old(self).values,
            final(self).links == old(self).links,
            final(self).new_bodies == old(self).new_bodies,
            final(self).stored == old(self).stored,
            final(self).fresh_from == old(self).fresh_from,
            final(self).seeds == old(self).seeds,
            final(self).cleanup == old(self).cleanup,
            final(self).processing == old(self).processing,
    {
        let id = self.ids;
        self.ids = self.ids + 1;
        id
    }
}


impl<T, L> ProcessingContext<T, L> {
    pub(crate) fn add_value(&mut self, state: ValueState<T>) -> (r: (usize, Id))
        requires
            old(self).wf(),
            old(self).id_room(),
            state.wf(),
            !state.is_dirty(),
        ensures
            final(self).wf(),
            old(self).grows_to(final(self)),
            r.0 == old(self).value_count(),
            r.1 == old(self).next_id(),
            r.1 != NULL_ID,
            final(self).next_id() == old(self).next_id() + 1,
            final(self).value_count() == old(self).value_count() + 1,
            final(self).link_count() == old(self).link_count(),
            final(self).state(r.0 as int) == state,
            final(self).value_id(r.0 as int) == r.1,
            final(self).downstream(r.0 as int) == Seq::<usize>::empty(),
            old(self).keeps_values(final(self), -1),
            old(self).same_schedule(final(self)),
            final(self).new_bodies() == old(self).new_bodies(),
    {
        let id = self.take_id();
        let index = self.values.len();
        self.values.push(Slot { id: id, state: state, next: Vec::new() });
        proof {
            assert(self.values@[index as int].state == state);
        }
        (index, id)
    }

    /// Registers a new link: a fresh id, an owner token whose clones keep the
    /// link active, and a seed so that it runs in the current event.
    pub(crate) fn add_link(&mut self, body: L) -> (r: (usize, Id, Rc<()>))
        requires
            old(self).wf(),
            old(self).id_room(),
        ensures
            final(self).wf(),
            old(self).grows_to(final(self)),
            r.0 == old(self).link_count(),
            r.1 == old(self).next_id(),
            r.1 != NULL_ID,
            final(self).next_id() == old(self).next_id() + 1,
            final(self).link_count() == old(self).link_count() + 1,
            final(self).value_count() == old(self).value_count(),
            final(self).link_id(r.0 as int) == r.1,
            final(self).seeds() == old(self).seeds().push(r.0),
            final(self).touched() == old(self).touched(),
            final(self).new_bodies() == old(self).new_bodies().push(body),
            old(self).keeps_values(final(self), -1),
    {
        let id = self.take_id();
        let index = self.links.len();
        let owner = Rc::new(());
        let kept = owner.clone();
        self.links.push(LinkMeta { id: id, owner: kept });
        self.new_bodies.push(body);
        self.seeds.push(index);
        proof {
            assert forall|l: usize| self.fresh_from <= l < self.links@.len() implies #[trigger] self.seeds@.contains(l) by {
                if l < index {
                    assert(old(self).seeds@.contains(l));
                    let k = choose|k: int| 0 <= k < old(self).seeds@.len() && old(self).seeds@[k] == l;
                    assert(self.seeds@[k] == l);
                } else {
                    assert(self.seeds@[self.seeds@.len() - 1] == l);
                }
            }
        }
        (index, id, owner)
    }

    /// Registers link `l` downstream of value `v`.
    pub(crate) fn add_downstream(&mut self, v: usize, l: usize)
        requires
            old(self).wf(),
            old(self).valid_value(v as int),
            old(self).valid_link(l as int),
        ensures
            final(self).wf(),
            old(self).grows_to(final(self)),
            final(self).value_count() == old(self).value_count(),
            final(self).link_count() == old(self).link_count(),
            final(self).state(v as int) == old(self).state(v as int),
            final(self).downstream(v as int) == old(self).downstream(v as int).push(l),
            old(self).keeps_values(final(self), v as int),
            old(self).same_schedule(final(self)),
            final(self).new_bodies() == old(self).new_bodies(),
    {
        self.values[v].next.push(l);
    }
}


/// The entries of `next` whose handle count in `counts` is above one (the
/// links still held by someone besides the graph), in order.
pub open spec fn live_entries(next: Seq<usize>, counts: Seq<usize>) -> Seq<usize>
    decreases next.len(),
{
    if next.len() == 0 {
        Seq::empty()
    } else {
        let rest = live_entries(next.drop_last(), counts.drop_last());
        if counts.last() > 1 {
            rest.push(next.last())
        } else {
            rest
        }
    }
}

/// `sub` is `s` with the entries of dropped links removed, order kept.
pub open spec fn is_live_selection(sub: Seq<usize>, s: Seq<usize>) -> bool {
    exists|counts: Seq<usize>| counts.len() == s.len() && sub == live_entries(s, counts)
}

proof fn lemma_live_entries_drawn(next: Seq<usize>, counts: Seq<usize>)
    ensures
        drawn_from(live_entries(next, counts), next),
    decreases next.len(),
{
    if next.len() > 0 {
        lemma_live_entries_drawn(next.drop_last(), counts.drop_last());
        let rest = live_entries(next.drop_last(), counts.drop_last());
        assert forall|k: int| 0 <= k < live_entries(next, counts).len() implies next.contains(
            #[trigger] live_entries(next, counts)[k],
        ) by {
            if k < rest.len() {
                assert(next.drop_last().contains(rest[k]));
                let j = choose|j: int| 0 <= j < next.drop_last().len() && next.drop_last()[j] == rest[k];
                assert(next[j] == rest[k]);
            } else {
                assert(next[next.len() - 1] == next.last());
            }
        }
    }
}

/// Keeps the entries of `next` whose count is above one, in order.
fn keep_live(next: &Vec<usize>, counts: &Vec<usize>) -> (r: Vec<usize>)
    requires
        counts@.len() == next@.len(),
    ensures
        r@ == live_entries(next@, counts@),
{
    let mut r: Vec<usize> = Vec::new();
    let mut k: usize = 0;
    while k < next.len()
        invariant
            counts@.len() == next@.len(),
            k <= next@.len(),
            r@ == live_entries(next@.subrange(0, k as int), counts@.subrange(0, k as int)),
        decreases next@.len() - k,
    {
        proof {
            assert(next@.subrange(0, k + 1).drop_last() =~= next@.subrange(0, k as int));
            assert(counts@.subrange(0, k + 1).drop_last() =~= counts@.subrange(0, k as int));
        }
        if counts[k] > 1 {
            r.push(next[k]);
        }
        k = k + 1;
    }
    proof {
        assert(next@.subrange(0, next@.len() as int) =~= next@);
        assert(counts@.subrange(0, counts@.len() as int) =~= counts@);
    }
    r
}

/// `read` is what a walk read for output `v` in context `ctx`: the live
/// entries of `v`'s fan-out list, or nothing if `v` names no value of `ctx`.
pub open spec fn fanout_read<T, L>(ctx: ProcessingContext<T, L>, v: Value, read: Seq<usize>) -> bool {
    if ctx.valid_value(v.spec_index() as int) && ctx.value_id(v.spec_index() as int) == v.spec_id() {
        is_live_selection(read, ctx.downstream(v.spec_index() as int))
    } else {
        read.len() == 0
    }
}

/// `next` is `prev` with more links scheduled after it.
pub open spec fn seeds_extend(prev: Seq<usize>, next: Seq<usize>) -> bool {
    &&& prev.len() <= next.len()
    &&& forall|k: int| 0 <= k < prev.len() ==> #[trigger] next[k] == prev[k]
}

/// `sub` holds only elements of `s`.
pub open spec fn drawn_from(sub: Seq<usize>, s: Seq<usize>) -> bool {
    forall|k: int| 0 <= k < sub.len() ==> s.contains(#[trigger] sub[k])
}

impl<T, L> ProcessingContext<T, L> {
    /// The still-active links downstream of value `v`. Entries of links
    /// whose every handle has been dropped are removed from the fan-out list.
    fn live_downstream(&mut self, v: usize) -> (r: Vec<usize>)
        requires
            old(self).wf(),
            old(self).valid_value(v as int),
        ensures
            final(self).wf(),
            old(self).grows_to(final(self)),
            final(self).value_count() == old(self).value_count(),
            final(self).link_count() == old(self).link_count(),
            final(self).state(v as int) == old(self).state(v as int),
            final(self).downstream(v as int) == r@,
            is_live_selection(r@, old(self).downstream(v as int)),
            drawn_from(r@, old(self).downstream(v as int)),
            old(self).keeps_values(final(self), v as int),
            old(self).same_schedule(final(self)),
            final(self).new_bodies() == old(self).new_bodies(),
            final(self).links == old(self).links,
            final(self).ids == old(self).ids,
    {
        let n = self.values[v].next.len();
        let mut counts: Vec<usize> = Vec::new();
        let mut k: usize = 0;
        while k < n
            invariant
                *self == *old(self),
                self.wf(),
                v < self.values@.len(),
                n == self.values@[v as int].next@.len(),
                k <= n,
                counts@.len() == k,
            decreases n - k,
        {
            let l = self.values[v].next[k];
            counts.push(strong_count(&self.links[l].owner));
            k = k + 1;
        }
        let out = keep_live(&self.values[v].next, &counts);
        let kept = keep_live(&self.values[v].next, &counts);
        proof {
            lemma_live_entries_drawn(self.values@[v as int].next@, counts@);
        }
        self.values[v].next = kept;
        proof {
            assert forall|i: int, k: int|
                0 <= i < self.values@.len() && 0 <= k < self.values@[i].next@.len()
                    implies #[trigger] self.values@[i].next@[k] < self.links@.len() by {
                if i == v {
                    assert(old(self).values@[v as int].next@.contains(out@[k]));
                }
            }
        }
        out
    }

    /// Enrols value `v`, changed for the first time this event, for cleanup
    /// and schedules its active downstream links.
    fn note_first_change(&mut self, v: usize)
        requires
            old(self).valid_value(v as int),
            old(self).wf_but(v as int),
        ensures
            final(self).wf(),
            old(self).grows_to(final(self)),
            final(self).value_count() == old(self).value_count(),
            final(self).link_count() == old(self).link_count(),
            final(self).state(v as int) == old(self).state(v as int),
            is_live_selection(final(self).downstream(v as int), old(self).downstream(v as int)),
            final(self).seeds() == old(self).seeds() + final(self).downstream(v as int),
            final(self).touched() == old(self).touched().push(v),
            old(self).keeps_values(final(self), v as int),
            final(self).new_bodies() == old(self).new_bodies(),
    {
        self.cleanup.push(v);
        proof {
            assert(self.cleanup@[self.cleanup@.len() - 1] == v);
            assert forall|i: usize| i < self.values@.len() && (#[trigger] self.values@[i as int].state).is_dirty() implies self.cleanup@.contains(i) by {
                if i != v {
                    assert(old(self).cleanup@.contains(i));
                    let k = choose|k: int| 0 <= k < old(self).cleanup@.len() && old(self).cleanup@[k] == i;
                    assert(self.cleanup@[k] == i);
                }
            }
        }
        let ghost mid = *self;
        let live = self.live_downstream(v);
        let ghost seeds0 = self.seeds@;
        let ghost pre = *self;
        let mut k: usize = 0;
        while k < live.len()
            invariant
                pre.wf(),
                pre.seeds@ == seeds0,
                self.values == pre.values,
                self.links == pre.links,
                self.cleanup == pre.cleanup,
                self.new_bodies == pre.new_bodies,
                self.stored == pre.stored,
                self.fresh_from == pre.fresh_from,
                self.processing == pre.processing,
                self.ids == pre.ids,
                k <= live@.len(),
                self.seeds@ == seeds0 + live@.subrange(0, k as int),
                forall|j: int| 0 <= j < seeds0.len() ==> #[trigger] seeds0[j] < self.links@.len(),
                forall|j: int| 0 <= j < live@.len() ==> #[trigger] live@[j] < self.links@.len(),
            decreases live@.len() - k,
        {
            self.seeds.push(live[k]);
            k = k + 1;
            proof {
                assert(self.seeds@ =~= seeds0 + live@.subrange(0, k as int));
            }
        }
        proof {
            assert(old(self).grows_to(&mid));
            old(self).lemma_grows_to_trans(&mid, &pre);
            assert(pre.grows_to(self));
            old(self).lemma_grows_to_trans(&pre, self);
            assert(old(self).keeps_values(&mid, -1));
            assert(self.values == pre.values);
            assert(live@.subrange(0, live@.len() as int) =~= live@);
            assert forall|j: int| 0 <= j < self.seeds@.len() implies #[trigger] self.seeds@[j] < self.links@.len() by {
                if j >= seeds0.len() {
                    assert(self.seeds@[j] == live@[j - seeds0.len()]);
                }
            }
            assert forall|l: usize| self.fresh_from <= l < self.links@.len() implies #[trigger] self.seeds@.contains(l) by {
                assert(seeds0.contains(l));
                let k = choose|k: int| 0 <= k < seeds0.len() && seeds0[k] == l;
                assert(self.seeds@[k] == l);
            }
        }
    }
}


/// The state of a history-aware scalar after a write of `x` that was not
/// suppressed: `x` is the payload, and the snapshot is the one taken before
/// the first write of the event.
pub open spec fn hist_written<T>(before: ValueState<T>, after: ValueState<T>, x: T) -> bool {
    match (before, after) {
        (ValueState::Hist(a), ValueState::Hist(b)) => {
            &&& b.value == x
            &&& b.previous_value == (if a.previous_value is Some {
                a.previous_value
            } else {
                Some(a.value)
            })
        },
        _ => false,
    }
}

impl<T, L> ProcessingContext<T, L> {
    pub(crate) fn state_ref(&self, v: usize) -> (r: &ValueState<T>)
        requires
            self.valid_value(v as int),
        ensures
            *r == self.state(v as int),
    {
        &self.values[v].state
    }

    pub(crate) fn value_total(&self) -> (r: usize)
        ensures
            r == self.value_count(),
    {
        self.values.len()
    }

    pub(crate) fn id_of_value(&self, v: usize) -> (r: Id)
        requires
            self.valid_value(v as int),
        ensures
            r == self.value_id(v as int),
    {
        self.values[v].id
    }

    /// Writes `x` into the history-less scalar `v`.
    pub(crate) fn set_prim(&mut self, v: usize, x: T)
        requires
            old(self).wf(),
            old(self).valid_value(v as int),
            old(self).state(v as int) is Prim,
        ensures
            final(self).wf(),
            old(self).grows_to(final(self)),
            final(self).value_count() == old(self).value_count(),
            final(self).link_count() == old(self).link_count(),
            final(self).state(v as int) == ValueState::Prim(PrimMut_ { value: x, first_change: false }),
            old(self).keeps_values(final(self), v as int),
            final(self).new_bodies() == old(self).new_bodies(),
            old(self).state(v as int)->Prim_0.first_change ==> {
                &&& is_live_selection(final(self).downstream(v as int), old(self).downstream(v as int))
                &&& final(self).seeds() == old(self).seeds() + final(self).downstream(v as int)
                &&& final(self).touched() == old(self).touched().push(v)
            },
            !old(self).state(v as int)->Prim_0.first_change ==> {
                &&& final(self).downstream(v as int) == old(self).downstream(v as int)
                &&& old(self).same_schedule(final(self))
            },
    {
        let first = match &self.values[v].state {
            ValueState::Prim(p) => p.first_change,
            _ => true,
        };
        self.values[v].state = ValueState::Prim(PrimMut_ { value: x, first_change: false });
        if first {
            self.note_first_change(v);
        }
    }

    /// Splices the list `v`; a splice that neither removes nor adds is
    /// ignored.
    pub(crate) fn splice_list(&mut self, v: usize, offset: usize, remove: usize, add: Vec<T>) -> (removed: Vec<T>)
        where
            T: Copy,
        requires
            old(self).wf(),
            old(self).valid_value(v as int),
            old(self).state(v as int) is List,
            offset + remove <= old(self).state(v as int)->List_0.value@.len(),
        ensures
            final(self).wf(),
            old(self).grows_to(final(self)),
            final(self).value_count() == old(self).value_count(),
            final(self).link_count() == old(self).link_count(),
            old(self).keeps_values(final(self), v as int),
            final(self).new_bodies() == old(self).new_bodies(),
            removed@ == old(self).state(v as int)->List_0.value@.subrange(offset as int, offset + remove),
            remove == 0 && add@.len() == 0 ==> *final(self) == *old(self),
            !(remove == 0 && add@.len() == 0) ==> {
                let before = old(self).state(v as int)->List_0;
                let after = final(self).state(v as int)->List_0;
                &&& final(self).state(v as int) is List
                &&& after.value@ == splice_seq(before.value@, offset as int, remove as int, add@)
                &&& after.base == before.base
                &&& after.changes@ == before.changes@.push(Change { offset: offset, remove: remove, add: add })
                &&& before.changes@.len() == 0 ==> {
                    &&& is_live_selection(final(self).downstream(v as int), old(self).downstream(v as int))
                    &&& final(self).seeds() == old(self).seeds() + final(self).downstream(v as int)
                    &&& final(self).touched() == old(self).touched().push(v)
                }
                &&& before.changes@.len() > 0 ==> {
                    &&& final(self).downstream(v as int) == old(self).downstream(v as int)
                    &&& old(self).same_schedule(final(self))
                }
            },
    {
        if remove == 0 && add.len() == 0 {
            return Vec::new();
        }
        let (first, removed) = self.values[v].state.splice_list(offset, remove, add);
        if first {
            self.note_first_change(v);
        }
        removed
    }
}

impl<T: PartialEq, L> ProcessingContext<T, L> {
    /// Writes `x` into the history-aware scalar `v`, unless it equals the
    /// current payload.
    pub(crate) fn set_hist(&mut self, v: usize, x: T)
        requires
            old(self).wf(),
            old(self).valid_value(v as int),
            old(self).state(v as int) is Hist,
        ensures
            final(self).wf(),
            old(self).grows_to(final(self)),
            T::obeys_eq_spec() && old(self).state(v as int)->Hist_0.value.eq_spec(&x) ==> *final(self) == *old(self),
            T::obeys_eq_spec() && !old(self).state(v as int)->Hist_0.value.eq_spec(&x) ==> old(self).hist_set(final(self), v as int, x),
            *final(self) == *old(self) || old(self).hist_set(final(self), v as int, x),
    {
        let same = match &self.values[v].state {
            ValueState::Hist(h) => h.value == x,
            _ => true,
        };
        if same {
            return;
        }
        let first = self.values[v].state.write_hist(x);
        if first {
            self.note_first_change(v);
        }
    }
}


/// An untyped handle to a value, used to declare a link's outputs.
#[derive(Clone, Copy)]
pub struct Value {
    id: Id,
    index: usize,
}

impl Value {
    pub(crate) fn of(id: Id, index: usize) -> (r: Value)
        ensures
            r.spec_id() == id,
            r.spec_index() == index,
    {
        Value { id: id, index: index }
    }

    pub closed spec fn spec_id(&self) -> Id {
        self.id
    }

    pub closed spec fn spec_index(&self) -> usize {
        self.index
    }

    pub fn id(&self) -> (r: Id)
        ensures
            r == self.spec_id(),
    {
        self.id
    }
}

/// Implemented by every value handle: its untyped form.
pub trait IntoValue {
    fn into_value(&self) -> Value;
}

/// Behavior of a link, implemented by users of the graph.
pub trait LinkTrait<T>: Sized {
    /// What one run of the link does: `post` is the context after a run
    /// that started from `pre`. An implementation states its effect here;
    /// the default states nothing.
    open spec fn effect(&self, pre: ProcessingContext<T, Self>, post: ProcessingContext<T, Self>) -> bool {
        true
    }

    /// Whether `outputs` are the values the link declares as its outputs.
    /// An implementation states its outputs here; the default states
    /// nothing.
    open spec fn declares(&self, outputs: Seq<Value>) -> bool {
        true
    }

    /// Runs the link: reads its inputs and writes its outputs through `pc`.
    fn call(&self, pc: &mut ProcessingContext<T, Self>)
        requires
            old(pc).wf(),
        ensures
            final(pc).wf(),
            old(pc).grows_to(final(pc)),
            self.effect(*old(pc), *final(pc)),
    ;

    /// The values this link may write; the graph follows them to the links
    /// downstream.
    fn next_values(&self) -> (r: Vec<Value>)
        ensures
            self.declares(r@),
    ;
}

/// A strong handle to a link. The link stays active while a clone of its
/// handle exists.
#[derive(Clone)]
pub struct Link {
    id: Id,
    index: usize,
    owner: Rc<()>,
}

impl Link {
    pub closed spec fn spec_id(&self) -> Id {
        self.id
    }

    pub closed spec fn spec_index(&self) -> usize {
        self.index
    }

    /// Creates a link with body `inner`. It runs once in the current event
    /// whether its inputs changed or not.
    pub fn new<T, L>(pc: &mut ProcessingContext<T, L>, inner: L) -> (r: Link)
        requires
            old(pc).wf(),
            old(pc).id_room(),
        ensures
            final(pc).wf(),
            old(pc).grows_to(final(pc)),
            r.spec_index() == old(pc).link_count(),
            r.spec_id() == old(pc).next_id(),
            r.spec_id() != NULL_ID,
            final(pc).next_id() == old(pc).next_id() + 1,
            final(pc).link_count() == old(pc).link_count() + 1,
            final(pc).value_count() == old(pc).value_count(),
            final(pc).link_id(r.spec_index() as int) == r.spec_id(),
            final(pc).seeds() == old(pc).seeds().push(r.spec_index()),
            final(pc).touched() == old(pc).touched(),
            old(pc).keeps_values(final(pc), -1),
    {
        let (index, id, owner) = pc.add_link(inner);
        Link { id: id, index: index, owner: owner }
    }

    pub fn id(&self) -> (r: Id)
        ensures
            r == self.spec_id(),
    {
        self.id
    }

    pub(crate) fn index(&self) -> (r: usize)
        ensures
            r == self.spec_index(),
    {
        self.index
    }
}


/// A set of naturals below `n` is finite and has at most `n` elements.
proof fn lemma_bounded_set(s: Set<usize>, n: usize)
    requires
        forall|i: usize| #[trigger] s.contains(i) ==> i < n,
    ensures
        s.finite(),
        s.len() <= n,
{
    let r = Set::<usize>::range(0, n);
    vstd::set_lib::range_set_properties::<usize>(0, n);
    assert(s.subset_of(r));
    vstd::set_lib::lemma_len_subset(s, r);
}

/// Scheduling state of one event, indexed by link: the affected links,
/// the current DFS path, the links already executed, the upstream-dep tree,
/// and the leaves and links discovered in the current round.
struct Walk {
    involved: Vec<bool>,
    on_path: Vec<bool>,
    processed: Vec<bool>,
    parents: Vec<Vec<usize>>,
    leaves: Vec<usize>,
    round: Vec<usize>,
    reached: Ghost<Set<usize>>,
    done: Ghost<Set<usize>>,
    run: Ghost<Seq<usize>>,
    rank: Ghost<Map<usize, nat>>,
    clock: Ghost<nat>,
    upstream: Ghost<Map<usize, Seq<usize>>>,
    edges: Ghost<Set<(usize, usize)>>,
    cut: Ghost<Set<(usize, usize)>>,
    found: Ghost<Map<usize, Seq<usize>>>,
    round_of: Ghost<Map<usize, nat>>,
    round_no: Ghost<nat>,
}

/// `p` occurs in `run` before position `j`.
pub open spec fn ran_before(run: Seq<usize>, p: usize, j: int) -> bool {
    exists|i: int| 0 <= i < j && run[i] == p
}

/// Every link of `run` runs after each of its recorded upstream links.
pub open spec fn respects_upstream(run: Seq<usize>, upstream: Map<usize, Seq<usize>>) -> bool {
    forall|j: int, k: int|
        0 <= j < run.len() && 0 <= k < upstream[run[j]].len() ==> ran_before(
            run,
            #[trigger] upstream[run[j]][k],
            j,
        )
}

impl Walk {
    /// The ghost record of the walk: every recorded edge `(p, c)` stays in
    /// `c`'s parents until `c` is executed, and then is among the upstream
    /// links `c` waited for if both were discovered in the same round; every
    /// link found downstream of a walked link was recorded or cut.
    spec fn tracks(&self) -> bool {
        &&& forall|p: usize, c: usize|
            #[trigger] self.edges@.contains((p, c)) ==> {
                &&& self.reached@.contains(p)
                &&& self.reached@.contains(c)
                &&& self.round_of@.contains_key(p)
                &&& self.round_of@.contains_key(c)
                &&& !self.done@.contains(c) ==> c < self.parents@.len() && self.parents@[c as int]@.contains(p)
                &&& self.upstream@.contains_key(c) && self.round_of@[p] == self.round_of@[c]
                    ==> self.upstream@[c].contains(p)
            }
        &&& forall|p: usize, c: usize| #[trigger] self.cut@.contains((p, c)) ==> self.reached@.contains(c)
        &&& forall|p: usize, c: usize|
            #[trigger] self.edges@.contains((p, c)) ==> self.rank@.contains_key(c) && (self.rank@.contains_key(p)
                ==> self.rank@[c] < self.rank@[p])
        &&& forall|p: usize, c: usize|
            #[trigger] self.cut@.contains((p, c)) ==> {
                &&& self.rank@.contains_key(p) && self.rank@.contains_key(c) ==> self.rank@[p] <= self.rank@[c]
                &&& !self.rank@.contains_key(p) ==> (c as int) < self.on_path@.len() && self.on_path@[c as int]
            }
        &&& forall|l: usize, k: int|
            self.found@.contains_key(l) && 0 <= k < self.found@[l].len() ==> self.kept_or_cut(
                l,
                #[trigger] self.found@[l][k],
            )
        &&& forall|x: usize| #[trigger] self.rank@.contains_key(x) <==> self.found@.contains_key(x)
        &&& forall|x: usize|
            #[trigger] self.reached@.contains(x) ==> self.round_of@.contains_key(x) && self.round_of@[x]
                <= self.round_no@
    }

    spec fn kept_or_cut(&self, l: usize, c: usize) -> bool {
        self.edges@.contains((l, c)) || self.cut@.contains((l, c))
    }

    /// A recorded edge from `p` down to `i`: `i` is finished, `p` is
    /// involved, and `p` finishes after `i`.
    spec fn parent_ok(&self, i: int, p: usize) -> bool {
        &&& self.rank@.contains_key(i as usize)
        &&& self.reached@.contains(p)
        &&& self.rank@.contains_key(p) ==> self.rank@[i as usize] < self.rank@[p]
    }

    spec fn wf(&self, n: nat) -> bool {
        &&& self.involved@.len() == n
        &&& self.on_path@.len() == n
        &&& self.processed@.len() == n
        &&& self.parents@.len() == n
        &&& forall|i: usize| i < n ==> (self.involved@[i as int] <==> #[trigger] self.reached@.contains(i))
        &&& forall|i: usize| #[trigger] self.reached@.contains(i) ==> i < n
        &&& forall|i: usize| i < n ==> (self.processed@[i as int] <==> #[trigger] self.done@.contains(i))
        &&& forall|i: usize| #[trigger] self.done@.contains(i) ==> i < n
        &&& forall|i: int| 0 <= i < n && #[trigger] self.on_path@[i] ==> self.involved@[i]
        &&& forall|i: int, k: int|
            0 <= i < n && 0 <= k < self.parents@[i]@.len() ==> #[trigger] self.parents@[i]@[k] < n
        &&& forall|k: int| 0 <= k < self.leaves@.len() ==> #[trigger] self.leaves@[k] < n
        &&& forall|k: int| 0 <= k < self.round@.len() ==> #[trigger] self.round@[k] < n
        &&& forall|k: int| 0 <= k < self.round@.len() ==> self.reached@.contains(#[trigger] self.round@[k])
        &&& self.run@.no_duplicates()
        &&& forall|k: int| 0 <= k < self.run@.len() ==> self.done@.contains(#[trigger] self.run@[k])
        &&& forall|i: usize|
            i < n ==> (#[trigger] self.rank@.contains_key(i) <==> (self.reached@.contains(i)
                && !self.on_path@[i as int]))
        &&& forall|i: usize| #[trigger] self.rank@.contains_key(i) ==> i < n && self.rank@[i] < self.clock@
        &&& forall|i: int, k: int|
            0 <= i < n && 0 <= k < self.parents@[i]@.len() ==> self.parent_ok(i, #[trigger] self.parents@[i]@[k])
        &&& forall|x: usize| #[trigger] self.upstream@.contains_key(x) ==> self.run@.contains(x)
        &&& forall|j: int| 0 <= j < self.run@.len() ==> self.upstream@.contains_key(#[trigger] self.run@[j])
        &&& respects_upstream(self.run@, self.upstream@)
    }

    fn new() -> (r: Walk)
        ensures
            r.wf(0),
            r.tracks(),
            r.round_no@ == 0,
            r.found@ == Map::<usize, Seq<usize>>::empty(),
            r.reached@ == Set::<usize>::empty(),
            r.done@ == Set::<usize>::empty(),
            r.run@ == Seq::<usize>::empty(),
            r.leaves@.len() == 0,
            r.round@.len() == 0,
    {
        Walk {
            involved: Vec::new(),
            on_path: Vec::new(),
            processed: Vec::new(),
            parents: Vec::new(),
            leaves: Vec::new(),
            round: Vec::new(),
            reached: Ghost(Set::empty()),
            done: Ghost(Set::empty()),
            run: Ghost(Seq::empty()),
            rank: Ghost(Map::empty()),
            clock: Ghost(0),
            upstream: Ghost(Map::empty()),
            edges: Ghost(Set::empty()),
            cut: Ghost(Set::empty()),
            found: Ghost(Map::empty()),
            round_of: Ghost(Map::empty()),
            round_no: Ghost(0),
        }
    }

    /// Makes room for the links created since the last round.
    fn grow(&mut self, n: usize)
        requires
            old(self).wf(old(self).involved@.len()),
            old(self).involved@.len() <= n,
            forall|i: int| 0 <= i < old(self).on_path@.len() ==> !#[trigger] old(self).on_path@[i],
            old(self).tracks(),
        ensures
            final(self).wf(n as nat),
            final(self).tracks(),
            final(self).edges == old(self).edges,
            final(self).cut == old(self).cut,
            final(self).found == old(self).found,
            final(self).round_of == old(self).round_of,
            final(self).round_no == old(self).round_no,
            final(self).rank == old(self).rank,
            final(self).clock == old(self).clock,
            final(self).upstream == old(self).upstream,
            final(self).reached == old(self).reached,
            final(self).done == old(self).done,
            final(self).run == old(self).run,
            final(self).leaves == old(self).leaves,
            final(self).round == old(self).round,
            forall|i: int| 0 <= i < n ==> !#[trigger] final(self).on_path@[i],
    {
        let ghost m = self.involved@.len();
        while self.involved.len() < n
            invariant
                m <= self.involved@.len() <= n,
                self.wf(self.involved@.len() as nat),
                self.reached == old(self).reached,
                self.done == old(self).done,
                self.run == old(self).run,
                self.leaves == old(self).leaves,
                self.round == old(self).round,
                forall|i: int| 0 <= i < self.on_path@.len() ==> !#[trigger] self.on_path@[i],
                self.tracks(),
                self.edges == old(self).edges,
                self.cut == old(self).cut,
                self.found == old(self).found,
                self.round_of == old(self).round_of,
                self.round_no == old(self).round_no,
                self.rank == old(self).rank,
                self.clock == old(self).clock,
                self.upstream == old(self).upstream,
            decreases n - self.involved@.len(),
        {
            let ghost prev = *self;
            self.involved.push(false);
            self.on_path.push(false);
            self.processed.push(false);
            self.parents.push(Vec::new());
            proof {
                let len = self.involved@.len();
                assert forall|i: usize| i < len implies (#[trigger] self.rank@.contains_key(i) <==> (self.reached@.contains(i)
                    && !self.on_path@[i as int])) by {
                    if i < prev.involved@.len() {
                        assert(self.on_path@[i as int] == prev.on_path@[i as int]);
                    }
                }
                assert forall|i: int, k: int| 0 <= i < len && 0 <= k < self.parents@[i]@.len() implies self.parent_ok(i, #[trigger] self.parents@[i]@[k]) by {
                    assert(i < prev.involved@.len());
                    assert(self.parents@[i] == prev.parents@[i]);
                }
                assert forall|i: int, k: int| 0 <= i < len && 0 <= k < self.parents@[i]@.len() implies #[trigger] self.parents@[i]@[k] < len by {
                    if i < prev.involved@.len() {
                        assert(self.parents@[i] == prev.parents@[i]);
                    } else {
                        assert(self.parents@[i]@.len() == 0);
                    }
                }
                assert forall|p: usize, c: usize| #[trigger] self.edges@.contains((p, c)) && !self.done@.contains(c) implies c < self.parents@.len() && self.parents@[c as int]@.contains(p) by {
                    assert(self.parents@[c as int] == prev.parents@[c as int]);
                }
            }
        }
    }
}

/// The event graph: the store of values and links, and the bodies of the
/// links. `event` is the entry point of every change.
pub struct EventGraph<T, L> {
    pc: ProcessingContext<T, L>,
    bodies: Vec<L>,
    last_run: Ghost<Seq<usize>>,
    last_edges: Ghost<Set<(usize, usize)>>,
    last_cut: Ghost<Set<(usize, usize)>>,
    last_found: Ghost<Map<usize, Seq<usize>>>,
    last_round: Ghost<Map<usize, nat>>,
    last_finish: Ghost<Map<usize, nat>>,
    step_entry: Ghost<ProcessingContext<T, L>>,
    step_pre: Ghost<Seq<ProcessingContext<T, L>>>,
    step_post: Ghost<Seq<ProcessingContext<T, L>>>,
    round_from: Ghost<int>,
    walk_outputs: Ghost<Map<usize, Seq<Value>>>,
    walk_reads: Ghost<Map<usize, Seq<Seq<usize>>>>,
    walk_ctx: Ghost<Map<usize, Seq<ProcessingContext<T, L>>>>,
}

impl<T, L> EventGraph<T, L> {
    /// Between events: the store is consistent, every link body is stored,
    /// and no per-event state is left.
    pub closed spec fn wf(&self) -> bool {
        &&& self.pc.wf()
        &&& self.bodies@.len() == self.pc.stored
        &&& self.pc.new_bodies@.len() == 0
        &&& self.pc.seeds@.len() == 0
        &&& self.pc.cleanup@.len() == 0
        &&& self.pc.fresh_from == self.pc.links@.len()
    }

    pub closed spec fn context(&self) -> ProcessingContext<T, L> {
        self.pc
    }

    /// The links executed by the last event, in execution order.
    pub closed spec fn last_run(&self) -> Seq<usize> {
        self.last_run@
    }

    /// The upstream-dependency edges `(parent, child)` recorded by the last
    /// event's downward walks.
    pub closed spec fn last_edges(&self) -> Set<(usize, usize)> {
        self.last_edges@
    }

    /// The edges the last event dropped because their target was on the
    /// current path of the downward walk (cycle edges).
    pub closed spec fn last_cut(&self) -> Set<(usize, usize)> {
        self.last_cut@
    }

    /// For each link walked by the last event, the active links found
    /// downstream of its outputs.
    pub closed spec fn last_found(&self) -> Map<usize, Seq<usize>> {
        self.last_found@
    }

    /// For each link walked by the last event, the propagation round in
    /// which it was discovered.
    pub closed spec fn last_round(&self) -> Map<usize, nat> {
        self.last_round@
    }

    /// For each link walked by the last event, its place in the order in
    /// which the downward walks finished with links.
    pub closed spec fn last_finish(&self) -> Map<usize, nat> {
        self.last_finish@
    }

    /// For each link walked by the last event, the outputs its body
    /// declared when walked.
    pub closed spec fn last_outputs(&self) -> Map<usize, Seq<Value>> {
        self.walk_outputs@
    }

    /// For each link walked by the last event and each of its outputs, the
    /// fan-out list the walk read.
    pub closed spec fn last_reads(&self) -> Map<usize, Seq<Seq<usize>>> {
        self.walk_reads@
    }

    /// For each link walked by the last event and each of its outputs, the
    /// context in which the walk read the fan-out list.
    pub closed spec fn last_read_ctx(&self) -> Map<usize, Seq<ProcessingContext<T, L>>> {
        self.walk_ctx@
    }

    /// The body of link `l`.
    pub closed spec fn body(&self, l: usize) -> L {
        self.bodies@[l as int]
    }

    /// The context the last event's callback left, when propagation began.
    pub closed spec fn last_entry(&self) -> ProcessingContext<T, L> {
        self.step_entry@
    }

    /// For the `k`-th link run by the last event, the context its body was
    /// called with.
    pub closed spec fn last_pre(&self) -> Seq<ProcessingContext<T, L>> {
        self.step_pre@
    }

    /// For the `k`-th link run by the last event, the context its body
    /// returned.
    pub closed spec fn last_post(&self) -> Seq<ProcessingContext<T, L>> {
        self.step_post@
    }

    /// The context after the last recorded run, or the entry context if no
    /// link has run.
    pub closed spec fn last_ctx(&self) -> ProcessingContext<T, L> {
        if self.step_post@.len() == 0 {
            self.step_entry@
        } else {
            self.step_post@.last()
        }
    }

    /// During propagation: the store is consistent and every link body
    /// is stored.
    closed spec fn running(&self) -> bool {
        &&& self.pc.wf()
        &&& self.bodies@.len() == self.pc.stored
        &&& self.pc.new_bodies@.len() == 0
    }

    pub fn new() -> (r: EventGraph<T, L>)
        ensures
            r.wf(),
            r.context().quiescent(),
            r.context().value_count() == 0,
            r.context().link_count() == 0,
            r.context().next_id() == 1,
    {
        EventGraph {
            pc: ProcessingContext {
                values: Vec::new(),
                links: Vec::new(),
                new_bodies: Vec::new(),
                stored: 0,
                fresh_from: 0,
                seeds: Vec::new(),
                cleanup: Vec::new(),
                processing: false,
                ids: 1,
            },
            bodies: Vec::new(),
            last_run: Ghost(Seq::empty()),
            last_edges: Ghost(Set::empty()),
            last_cut: Ghost(Set::empty()),
            last_found: Ghost(Map::empty()),
            last_round: Ghost(Map::empty()),
            last_finish: Ghost(Map::empty()),
            step_entry: Ghost(vstd::pervasive::arbitrary()),
            step_pre: Ghost(Seq::empty()),
            step_post: Ghost(Seq::empty()),
            round_from: Ghost(0),
            walk_outputs: Ghost(Map::empty()),
            walk_reads: Ghost(Map::empty()),
            walk_ctx: Ghost(Map::empty()),
        }
    }

    /// Read access to the values, for use between events.
    pub fn pc(&self) -> (r: &ProcessingContext<T, L>)
        ensures
            *r == self.context(),
    {
        &self.pc
    }

    /// Moves the bodies of the links created since the last call into the
    /// graph.
    fn commit_new_links(&mut self)
        requires
            old(self).pc.wf(),
            old(self).bodies@.len() == old(self).pc.stored,
        ensures
            final(self).running(),
            final(self).pc.values == old(self).pc.values,
            final(self).pc.links == old(self).pc.links,
            final(self).pc.seeds == old(self).pc.seeds,
            final(self).pc.cleanup == old(self).pc.cleanup,
            final(self).pc.ids == old(self).pc.ids,
            final(self).pc.fresh_from == old(self).pc.fresh_from,
            final(self).pc.processing == old(self).pc.processing,
            final(self).last_run == old(self).last_run,
            final(self).step_entry == old(self).step_entry,
            final(self).step_pre == old(self).step_pre,
            final(self).step_post == old(self).step_post,
            final(self).round_from == old(self).round_from,
            final(self).walk_outputs == old(self).walk_outputs,
            final(self).walk_reads == old(self).walk_reads,
            final(self).walk_ctx == old(self).walk_ctx,
            final(self).bodies@.len() >= old(self).bodies@.len(),
            forall|i: int| 0 <= i < old(self).bodies@.len() ==> #[trigger] final(self).bodies@[i] == old(self).bodies@[i],
    {
        let mut fresh: Vec<L> = Vec::new();
        std::mem::swap(&mut fresh, &mut self.pc.new_bodies);
        self.bodies.append(&mut fresh);
        self.pc.stored = self.bodies.len();
    }
}


impl Walk {
    /// `self` is `w0` after the start of a discovery step at `l`: `l` marked
    /// involved and on the path, and whatever the step discovered since.
    spec fn extends_from(&self, w0: &Walk, n: nat, l: usize) -> bool {
        &&& self.wf(n)
        &&& self.on_path@ == w0.on_path@.update(l as int, true)
        &&& self.processed == w0.processed
        &&& self.done == w0.done
        &&& self.run == w0.run
        &&& self.upstream == w0.upstream
        &&& self.tracks()
        &&& w0.edges@.subset_of(self.edges@)
        &&& w0.cut@.subset_of(self.cut@)
        &&& self.round_no == w0.round_no
        &&& forall|x: usize| #[trigger] w0.round_of@.contains_key(x) && w0.reached@.contains(x) ==> self.round_of@.contains_key(x) && self.round_of@[x] == w0.round_of@[x]
        &&& self.round_of@.contains_key(l) && self.round_of@[l] == self.round_no@
        &&& !self.found@.contains_key(l)
        &&& forall|p: usize, c: usize|
            #[trigger] self.cut@.contains((p, c)) && !w0.cut@.contains((p, c)) ==> p == l || self.rank@.contains_key(p)
        &&& forall|x: usize| #[trigger] w0.rank@.contains_key(x) ==> self.rank@.contains_key(x) && self.rank@[x] == w0.rank@[x]
        &&& w0.clock@ <= self.clock@
        &&& w0.reached@.insert(l).subset_of(self.reached@)
        &&& w0.round@.len() < self.round@.len()
        &&& self.round@[w0.round@.len() as int] == l
        &&& forall|k: int| 0 <= k < w0.round@.len() ==> self.round@[k] == w0.round@[k]
        &&& forall|k: int|
            w0.round@.len() <= k < self.round@.len() ==> !w0.reached@.contains(#[trigger] self.round@[k])
        &&& forall|x: usize|
            #[trigger] self.reached@.contains(x) && !w0.reached@.contains(x) ==> self.round@.contains(x)
        &&& w0.leaves@.len() <= self.leaves@.len()
        &&& forall|k: int| 0 <= k < w0.leaves@.len() ==> self.leaves@[k] == w0.leaves@[k]
    }

    /// Records `p` as an upstream parent of `c`, once.
    fn add_parent(&mut self, c: usize, p: usize, n: usize)
        requires
            old(self).wf(n as nat),
            c < n,
            p < n,
            old(self).rank@.contains_key(c),
            old(self).reached@.contains(p),
            old(self).rank@.contains_key(p) ==> old(self).rank@[c] < old(self).rank@[p],
            old(self).tracks(),
        ensures
            final(self).tracks(),
            final(self).edges == old(self).edges,
            final(self).cut == old(self).cut,
            final(self).found == old(self).found,
            final(self).round_of == old(self).round_of,
            final(self).round_no == old(self).round_no,
            final(self).rank == old(self).rank,
            final(self).clock == old(self).clock,
            final(self).upstream == old(self).upstream,
            final(self).wf(n as nat),
            final(self).parents@[c as int]@.contains(p),
            forall|i: int| 0 <= i < n && i != c ==> #[trigger] final(self).parents@[i] == old(self).parents@[i],
            forall|k: int| 0 <= k < old(self).parents@[c as int]@.len() ==> final(self).parents@[c as int]@.contains(
                #[trigger] old(self).parents@[c as int]@[k],
            ),
            final(self).involved == old(self).involved,
            final(self).on_path == old(self).on_path,
            final(self).processed == old(self).processed,
            final(self).leaves == old(self).leaves,
            final(self).round == old(self).round,
            final(self).reached == old(self).reached,
            final(self).done == old(self).done,
            final(self).run == old(self).run,
    {
        let mut found = false;
        let mut k: usize = 0;
        while k < self.parents[c].len()
            invariant
                self == old(self),
                c < self.parents@.len(),
                k <= self.parents@[c as int]@.len(),
                found ==> self.parents@[c as int]@.contains(p),
            decreases self.parents@[c as int]@.len() - k,
        {
            if self.parents[c][k] == p {
                found = true;
            }
            k = k + 1;
        }
        if !found {
            self.parents[c].push(p);
            proof {
                let ps = self.parents@[c as int]@;
                assert(ps[ps.len() - 1] == p);
                assert forall|i: int, k: int| 0 <= i < n && 0 <= k < self.parents@[i]@.len() implies self.parent_ok(i, #[trigger] self.parents@[i]@[k]) by {
                    if i != c {
                        assert(self.parents@[i] == old(self).parents@[i]);
                    } else if k < ps.len() - 1 {
                        assert(ps[k] == old(self).parents@[c as int]@[k]);
                    }
                }
                assert forall|i: int, k: int| 0 <= i < n && 0 <= k < self.parents@[i]@.len() implies #[trigger] self.parents@[i]@[k] < n by {
                    if i != c {
                        assert(self.parents@[i] == old(self).parents@[i]);
                    } else if k < ps.len() - 1 {
                        assert(ps[k] == old(self).parents@[c as int]@[k]);
                    }
                }
                assert forall|q: usize, d: usize| #[trigger] self.edges@.contains((q, d)) && !self.done@.contains(d) implies d < self.parents@.len() && self.parents@[d as int]@.contains(q) by {
                    let old_ps = old(self).parents@[d as int]@;
                    assert(old_ps.contains(q));
                    if d != c {
                        assert(self.parents@[d as int] == old(self).parents@[d as int]);
                    } else {
                        let k = choose|k: int| 0 <= k < old_ps.len() && old_ps[k] == q;
                        assert(ps[k] == q);
                    }
                }
                assert forall|k: int| 0 <= k < old(self).parents@[c as int]@.len() implies ps.contains(
                    #[trigger] old(self).parents@[c as int]@[k],
                ) by {
                    assert(ps[k] == old(self).parents@[c as int]@[k]);
                }
            }
        }
    }
}

impl<T, L> EventGraph<T, L> {
    /// `self` differs from `g0` only by compaction of fan-out lists.
    closed spec fn same_links(&self, g0: &Self) -> bool {
        &&& self.running()
        &&& self.bodies == g0.bodies
        &&& self.pc.links == g0.pc.links
        &&& self.pc.values@.len() == g0.pc.values@.len()
        &&& self.pc.seeds@ == g0.pc.seeds@
        &&& self.pc.cleanup@ == g0.pc.cleanup@
        &&& self.pc.ids == g0.pc.ids
        &&& self.pc.fresh_from == g0.pc.fresh_from
        &&& self.pc.processing == g0.pc.processing
        &&& self.pc.stored == g0.pc.stored
        &&& self.last_run == g0.last_run
        &&& g0.pc.same_values(&self.pc)
        &&& self.step_entry == g0.step_entry
        &&& self.step_pre == g0.step_pre
        &&& self.step_post == g0.step_post
        &&& self.round_from == g0.round_from
    }
}

impl<T, L: LinkTrait<T>> EventGraph<T, L> {
    /// What the walk of link `l` read: the outputs its body declared, the
    /// fan-out list read for each, and the context of each read; the links
    /// found downstream of `l` are those lists, concatenated.
    closed spec fn reads_ok(&self, found: Map<usize, Seq<usize>>) -> bool {
        forall|l: usize| #[trigger] found.contains_key(l) ==> self.walk_record_ok(l, found[l])
    }

    closed spec fn walk_record_ok(&self, l: usize, found_l: Seq<usize>) -> bool {
        &&& self.walk_outputs@.contains_key(l)
        &&& self.walk_reads@.contains_key(l)
        &&& self.walk_ctx@.contains_key(l)
        &&& l < self.bodies@.len()
        &&& self.bodies@[l as int].declares(self.walk_outputs@[l])
        &&& self.walk_reads@[l].len() == self.walk_outputs@[l].len()
        &&& self.walk_ctx@[l].len() == self.walk_outputs@[l].len()
        &&& found_l == self.walk_reads@[l].flatten()
        &&& forall|k: int|
            0 <= k < self.walk_outputs@[l].len() ==> fanout_read(
                self.walk_ctx@[l][k],
                self.walk_outputs@[l][k],
                #[trigger] self.walk_reads@[l][k],
            )
    }

    proof fn lemma_reads_ok_kept(&self, next: &Self, found: Map<usize, Seq<usize>>)
        requires
            self.reads_ok(found),
            self.walk_outputs == next.walk_outputs,
            self.walk_reads == next.walk_reads,
            self.walk_ctx == next.walk_ctx,
            self.bodies@.len() <= next.bodies@.len(),
            forall|i: int| 0 <= i < self.bodies@.len() ==> #[trigger] next.bodies@[i] == self.bodies@[i],
        ensures
            next.reads_ok(found),
    {
        assert forall|l: usize| #[trigger] found.contains_key(l) implies next.walk_record_ok(l, found[l]) by {
            assert(self.walk_record_ok(l, found[l]));
            assert(next.bodies@[l as int] == self.bodies@[l as int]);
        }
    }

    /// The links scheduled by the runs of the current round are still
    /// scheduled.
    closed spec fn posts_pending(&self) -> bool {
        forall|k: int, j: int|
            0 <= k && self.round_from@ <= k < self.step_post@.len() && 0 <= j < self.step_post@[k].seeds().len()
                ==> self.pc.seeds@.contains(#[trigger] self.step_post@[k].seeds()[j])
    }

    /// The runs recorded for `run`: each link's body was called with the
    /// recorded pre-context and returned the post-context; between runs the
    /// values did not change.
    closed spec fn trace_ok(&self, run: Seq<usize>) -> bool {
        &&& self.step_pre@.len() == run.len()
        &&& self.step_post@.len() == run.len()
        &&& forall|k: int|
            0 <= k < run.len() ==> #[trigger] run[k] < self.bodies@.len() && self.bodies@[run[k] as int].effect(
                self.step_pre@[k],
                self.step_post@[k],
            )
        &&& run.len() > 0 ==> self.step_entry@.same_values(&self.step_pre@[0])
        &&& forall|k: int|
            0 <= k < run.len() - 1 ==> (#[trigger] self.step_post@[k]).same_values(&self.step_pre@[k + 1])
        &&& self.last_ctx().same_values(&self.pc)
    }
}

impl<T, L: LinkTrait<T>> EventGraph<T, L> {
    /// The downward walk from link `l` (Step A): collects the links
    /// downstream of `l`'s outputs, drops every edge to a link on the current
    /// path (a cycle edge), records `l` as a parent of the others, walks
    /// those not yet involved, and records `l` as a leaf when none of them
    /// was. Returns whether `l` was newly involved.
    fn discover(&mut self, w: &mut Walk, l: usize, n: usize) -> (fresh: bool)
        requires
            old(self).running(),
            old(self).pc.links@.len() == n,
            old(w).wf(n as nat),
            l < n,
            old(w).tracks(),
            old(w).done@.subset_of(old(w).reached@),
            forall|x: usize| #[trigger] old(w).done@.contains(x) ==> old(w).round_of@[x] < old(w).round_no@,
            old(self).reads_ok(old(w).found@),
        ensures
            final(self).same_links(old(self)),
            final(self).reads_ok(final(w).found@),
            final(w).tracks(),
            old(w).edges@.subset_of(final(w).edges@),
            old(w).cut@.subset_of(final(w).cut@),
            final(w).round_no == old(w).round_no,
            forall|x: usize| #[trigger] old(w).round_of@.contains_key(x) && old(w).reached@.contains(x) ==> final(w).round_of@.contains_key(x) && final(w).round_of@[x] == old(w).round_of@[x],
            forall|p: usize, c: usize|
                #[trigger] final(w).cut@.contains((p, c)) && !old(w).cut@.contains((p, c)) ==> final(w).rank@.contains_key(p),
            forall|x: usize| #[trigger] old(w).rank@.contains_key(x) ==> final(w).rank@.contains_key(x) && final(w).rank@[x] == old(w).rank@[x],
            old(w).clock@ <= final(w).clock@,
            final(w).wf(n as nat),
            final(w).on_path@ == old(w).on_path@,
            final(w).processed == old(w).processed,
            final(w).done == old(w).done,
            final(w).run == old(w).run,
            final(w).upstream == old(w).upstream,
            old(w).reached@.subset_of(final(w).reached@),
            final(w).reached@.contains(l),
            fresh == !old(w).reached@.contains(l),
            old(w).round@.len() <= final(w).round@.len(),
            forall|k: int| 0 <= k < old(w).round@.len() ==> final(w).round@[k] == old(w).round@[k],
            forall|k: int|
                old(w).round@.len() <= k < final(w).round@.len() ==> !old(w).reached@.contains(
                    #[trigger] final(w).round@[k],
                ),
            forall|x: usize|
                #[trigger] final(w).reached@.contains(x) && !old(w).reached@.contains(x)
                    ==> final(w).round@.contains(x),
            old(w).leaves@.len() <= final(w).leaves@.len(),
            forall|k: int| 0 <= k < old(w).leaves@.len() ==> final(w).leaves@[k] == old(w).leaves@[k],
        decreases n - w.reached@.len(),
    {
        if w.involved[l] {
            return false;
        }
        proof {
            lemma_bounded_set(w.reached@, n);
        }
        let ghost w0 = *w;
        let ghost g0 = *self;
        w.involved.set(l, true);
        w.reached = Ghost(w.reached@.insert(l));
        w.round.push(l);
        w.on_path.set(l, true);
        w.round_of = Ghost(w.round_of@.insert(l, w.round_no@));
        let ghost mut fl: Seq<usize> = Seq::empty();
        proof {
            assert(!w0.rank@.contains_key(l));
            assert forall|x: usize| #[trigger] w.rank@.contains_key(x) <==> w.found@.contains_key(x) by {
                assert(w0.rank@.contains_key(x) <==> w0.found@.contains_key(x));
            }
            assert(!w.found@.contains_key(l));
            assert forall|p: usize, c: usize| #[trigger] w.edges@.contains((p, c)) implies {
                &&& w.reached@.contains(p)
                &&& w.reached@.contains(c)
                &&& w.round_of@.contains_key(p)
                &&& w.round_of@.contains_key(c)
                &&& !w.done@.contains(c) ==> c < w.parents@.len() && w.parents@[c as int]@.contains(p)
                &&& w.upstream@.contains_key(c) && w.round_of@[p] == w.round_of@[c] ==> w.upstream@[c].contains(p)
            } by {
                assert(w0.edges@.contains((p, c)));
                assert(p != l && c != l);
            }
            assert forall|x: usize| #[trigger] w.reached@.contains(x) implies w.round_of@.contains_key(x) && w.round_of@[x]
                <= w.round_no@ by {
                if x != l {
                    assert(w0.reached@.contains(x));
                }
            }
            assert forall|p: usize, c: usize| #[trigger] w.cut@.contains((p, c)) && !w.rank@.contains_key(p) implies (c as int) < w.on_path@.len() && w.on_path@[c as int] by {
                assert(w0.on_path@[c as int]);
            }
            assert forall|x: usize| #[trigger] w0.round_of@.contains_key(x) && w0.reached@.contains(x) implies w.round_of@.contains_key(x) && w.round_of@[x] == w0.round_of@[x] by {
                assert(x != l);
            }
            assert forall|x: usize| #[trigger] w.reached@.contains(x) && !w0.reached@.contains(x) implies w.round@.contains(x) by {
                assert(x == l);
                assert(w.round@[w0.round@.len() as int] == l);
            }
        }
        proof {
            assert(w.tracks());
            assert(w0.edges@.subset_of(w.edges@));
            assert(w0.cut@.subset_of(w.cut@));
            assert(w.wf(n as nat));
            assert(w.on_path@ == w0.on_path@.update(l as int, true));
            assert(w0.reached@.insert(l).subset_of(w.reached@));
        }
        let outs = self.bodies[l].next_values();
        let ghost mut lists: Seq<Seq<usize>> = Seq::empty();
        let ghost mut ctxs: Seq<ProcessingContext<T, L>> = Seq::empty();
        let mut any_child = false;
        let mut i: usize = 0;
        while i < outs.len()
            invariant
                self.same_links(&g0),
                n == g0.pc.links@.len(),
                l < n,
                w0.wf(n as nat),
                w0 == *old(w),
                !w0.reached@.contains(l),
                w.extends_from(&w0, n as nat, l),
                forall|j: int| 0 <= j < fl.len() ==> w.kept_or_cut(l, #[trigger] fl[j]),
                forall|x: usize| #[trigger] w0.done@.contains(x) ==> w0.round_of@[x] < w0.round_no@,
                w0.done@.subset_of(w0.reached@),
                w0.tracks(),
                i <= outs@.len(),
                self.reads_ok(w.found@),
                self.bodies@[l as int].declares(outs@),
                lists.len() == i,
                ctxs.len() == i,
                fl == lists.flatten(),
                forall|k: int| 0 <= k < i ==> fanout_read(ctxs[k], outs@[k], #[trigger] lists[k]),
            decreases outs@.len() - i,
        {
            let out = outs[i];
            if out.index < self.pc.values.len() && self.pc.values[out.index].id == out.id {
                let ghost ctx_read = self.pc;
                let next = self.pc.live_downstream(out.index);
                proof {
                    assert(next@.subrange(0, 0) =~= Seq::<usize>::empty());
                    assert(fl == lists.flatten() + next@.subrange(0, 0));
                    assert(fanout_read(ctx_read, out, next@));
                }
                proof {
                    assert forall|j: int| 0 <= j < next@.len() implies #[trigger] next@[j] < n by {
                        assert(self.pc.values@[out.index as int].next@[j] == next@[j]);
                    }
                }
                let mut k: usize = 0;
                while k < next.len()
                    invariant
                        self.same_links(&g0),
                        n == g0.pc.links@.len(),
                        l < n,
                        w0.wf(n as nat),
                        w0 == *old(w),
                        !w0.reached@.contains(l),
                        w.extends_from(&w0, n as nat, l),
                        forall|j: int| 0 <= j < fl.len() ==> w.kept_or_cut(l, #[trigger] fl[j]),
                        forall|x: usize| #[trigger] w0.done@.contains(x) ==> w0.round_of@[x] < w0.round_no@,
                        w0.done@.subset_of(w0.reached@),
                        w0.tracks(),
                        forall|j: int| 0 <= j < next@.len() ==> #[trigger] next@[j] < n,
                        self.reads_ok(w.found@),
                        self.bodies@[l as int].declares(outs@),
                        lists.len() == i,
                        ctxs.len() == i,
                        fl == lists.flatten() + next@.subrange(0, k as int),
                        forall|m: int| 0 <= m < i ==> fanout_read(ctxs[m], outs@[m], #[trigger] lists[m]),
                        out == outs@[i as int],
                        i < outs@.len(),
                        fanout_read(ctx_read, out, next@),
                        k <= next@.len(),
                    decreases next@.len() - k,
                {
                    let c = next[k];
                    let ghost wc = *w;
                    if !w.on_path[c] {
                        let ghost w1 = *w;
                        proof {
                            assert forall|x: usize| #[trigger] w.done@.contains(x) implies w.round_of@[x] < w.round_no@ by {
                                assert(w0.done@.contains(x));
                                assert(w0.reached@.contains(x));
                                assert(w0.round_of@.contains_key(x));
                            }
                            assert(w.done@.subset_of(w.reached@)) by {
                                assert forall|x: usize| w.done@.contains(x) implies w.reached@.contains(x) by {
                                    assert(w0.reached@.contains(x));
                                }
                            }
                            lemma_bounded_set(w.reached@, n);
                            lemma_bounded_set(w0.reached@, n);
                            vstd::set::axiom_set_insert_len(w0.reached@, l);
                            vstd::set_lib::lemma_len_subset(w0.reached@.insert(l), w.reached@);
                            assert(w.reached@.len() > w0.reached@.len());
                            assert(w.reached@.len() <= n);
                        }
                        if self.discover(w, c, n) {
                            any_child = true;
                        }
                        proof {
                            assert(w.on_path@ =~= w1.on_path@);
                        }
                        w.add_parent(c, l, n);
                        let ghost w2 = *w;
                        w.edges = Ghost(w.edges@.insert((l, c)));
                        proof {
                            assert forall|k: int| w0.round@.len() <= k < w.round@.len() implies !w0.reached@.contains(#[trigger] w.round@[k]) by {
                                if k >= w1.round@.len() {
                                    assert(!w1.reached@.contains(w.round@[k]));
                                } else {
                                    assert(w.round@[k] == w1.round@[k]);
                                }
                            }
                            assert forall|x: usize| #[trigger] w.reached@.contains(x) && !w0.reached@.contains(x) implies w.round@.contains(x) by {
                                if w1.reached@.contains(x) {
                                    assert(w1.round@.contains(x));
                                    let j = choose|j: int| 0 <= j < w1.round@.len() && w1.round@[j] == x;
                                    assert(w.round@[j] == x);
                                }
                            }
                            assert(w.reached@.contains(c));
                            assert(w.round_of@.contains_key(c));
                            assert(!w.on_path@[c as int]);
                            assert(w.rank@.contains_key(c));
                            assert(!w.rank@.contains_key(l));
                            assert forall|p: usize, d: usize| #[trigger] w.edges@.contains((p, d)) implies w.rank@.contains_key(d) && (w.rank@.contains_key(p)
                                ==> w.rank@[d] < w.rank@[p]) by {
                                if !(p == l && d == c) {
                                    assert(w2.edges@.contains((p, d)));
                                }
                            }
                            assert forall|p: usize, d: usize| #[trigger] w.cut@.contains((p, d)) && !w0.cut@.contains((p, d)) implies p == l || w.rank@.contains_key(p) by {
                                if !w1.cut@.contains((p, d)) {
                                    assert(w.rank@.contains_key(p));
                                }
                            }
                            assert forall|p: usize, d: usize| #[trigger] w.edges@.contains((p, d)) implies {
                                &&& w.reached@.contains(p)
                                &&& w.reached@.contains(d)
                                &&& w.round_of@.contains_key(p)
                                &&& w.round_of@.contains_key(d)
                                &&& !w.done@.contains(d) ==> d < w.parents@.len() && w.parents@[d as int]@.contains(p)
                                &&& w.upstream@.contains_key(d) && w.round_of@[p] == w.round_of@[d] ==> w.upstream@[d].contains(p)
                            } by {
                                if p == l && d == c {
                                    if w.upstream@.contains_key(c) {
                                        assert(w.run@.contains(c));
                                        let j = choose|j: int| 0 <= j < w.run@.len() && w.run@[j] == c;
                                        assert(w.done@.contains(w.run@[j]));
                                        assert(w0.done@.contains(c));
                                        assert(w0.reached@.contains(c));
                                        assert(w0.round_of@.contains_key(c));
                                        assert(w1.round_of@.contains_key(c) && w1.reached@.contains(c));
                                        assert(w.round_of@[c] == w0.round_of@[c]);
                                    }
                                }
                            }
                            assert forall|j: int| 0 <= j < fl.len() implies w.kept_or_cut(l, #[trigger] fl[j]) by {
                                assert(wc.kept_or_cut(l, fl[j]));
                            }
                            assert forall|m: usize, j: int| w.found@.contains_key(m) && 0 <= j < w.found@[m].len() implies w.kept_or_cut(m, #[trigger] w.found@[m][j]) by {
                                assert(w2.kept_or_cut(m, w2.found@[m][j]));
                            }
                            assert forall|x: usize| #[trigger] w0.done@.contains(x) implies w0.reached@.contains(x) && w1.reached@.contains(x) by {}
                        }
                    } else {
                        w.cut = Ghost(w.cut@.insert((l, c)));
                        proof {
                            assert(w.reached@.contains(c));
                            assert forall|p: usize, d: usize| #[trigger] w.cut@.contains((p, d)) implies w.reached@.contains(d) by {
                                if !(p == l && d == c) {
                                    assert(wc.cut@.contains((p, d)));
                                }
                            }
                            assert(!w.rank@.contains_key(l));
                            assert forall|p: usize, d: usize| #[trigger] w.cut@.contains((p, d)) implies {
                                &&& w.rank@.contains_key(p) && w.rank@.contains_key(d) ==> w.rank@[p] <= w.rank@[d]
                                &&& !w.rank@.contains_key(p) ==> (d as int) < w.on_path@.len() && w.on_path@[d as int]
                            } by {
                                if !(p == l && d == c) {
                                    assert(wc.cut@.contains((p, d)));
                                }
                            }
                            assert forall|p: usize, d: usize| #[trigger] w.cut@.contains((p, d)) && !w0.cut@.contains((p, d)) implies p == l || w.rank@.contains_key(p) by {
                                if !(p == l && d == c) {
                                    assert(wc.cut@.contains((p, d)));
                                }
                            }
                            assert forall|j: int| 0 <= j < fl.len() implies w.kept_or_cut(l, #[trigger] fl[j]) by {
                                assert(wc.kept_or_cut(l, fl[j]));
                            }
                            assert forall|m: usize, j: int| w.found@.contains_key(m) && 0 <= j < w.found@[m].len() implies w.kept_or_cut(m, #[trigger] w.found@[m][j]) by {
                                assert(wc.kept_or_cut(m, wc.found@[m][j]));
                            }
                        }
                    }
                    proof {
                        fl = fl.push(c);
                        assert(w.kept_or_cut(l, fl[fl.len() - 1]));
                        assert(next@.subrange(0, k + 1) =~= next@.subrange(0, k as int).push(c));
                    }
                    k = k + 1;
                }
                proof {
                    assert(next@.subrange(0, next@.len() as int) =~= next@);
                    lists.lemma_flatten_push(next@);
                    lists = lists.push(next@);
                    ctxs = ctxs.push(ctx_read);
                    assert forall|m: int| 0 <= m < i + 1 implies fanout_read(ctxs[m], outs@[m], #[trigger] lists[m]) by {}
                }
            } else {
                proof {
                    assert(!(self.pc.valid_value(out.index as int) && self.pc.value_id(out.index as int) == out.id));
                    lists.lemma_flatten_push(Seq::empty());
                    assert(lists.flatten() + Seq::<usize>::empty() =~= lists.flatten());
                    lists = lists.push(Seq::empty());
                    ctxs = ctxs.push(self.pc);
                    assert(fanout_read(self.pc, out, Seq::<usize>::empty()));
                    assert forall|m: int| 0 <= m < i + 1 implies fanout_read(ctxs[m], outs@[m], #[trigger] lists[m]) by {}
                    assert(lists.flatten() =~= fl);
                }
            }
            i = i + 1;
        }
        let ghost w3 = *w;
        w.on_path.set(l, false);
        w.rank = Ghost(w.rank@.insert(l, w.clock@));
        w.clock = Ghost(w.clock@ + 1);
        w.found = Ghost(w.found@.insert(l, fl));
        let ghost g4 = *self;
        self.walk_outputs = Ghost(self.walk_outputs@.insert(l, outs@));
        self.walk_reads = Ghost(self.walk_reads@.insert(l, lists));
        self.walk_ctx = Ghost(self.walk_ctx@.insert(l, ctxs));
        proof {
            assert(self.walk_record_ok(l, fl));
            assert forall|m: usize| #[trigger] w.found@.contains_key(m) implies self.walk_record_ok(m, w.found@[m]) by {
                if m != l {
                    assert(w3.found@.contains_key(m));
                    assert(g4.walk_record_ok(m, w3.found@[m]));
                }
            }
            assert(!w3.rank@.contains_key(l));
            assert forall|p: usize, c: usize| #[trigger] w.edges@.contains((p, c)) implies w.rank@.contains_key(c) && (w.rank@.contains_key(p)
                ==> w.rank@[c] < w.rank@[p]) by {
                assert(w3.rank@.contains_key(c));
                assert(c != l);
            }
            assert forall|p: usize, c: usize| #[trigger] w.cut@.contains((p, c)) implies {
                &&& w.rank@.contains_key(p) && w.rank@.contains_key(c) ==> w.rank@[p] <= w.rank@[c]
                &&& !w.rank@.contains_key(p) ==> (c as int) < w.on_path@.len() && w.on_path@[c as int]
            } by {
                if p == l {
                    if c != l {
                        assert(w3.on_path@[c as int]);
                        assert(w.on_path@[c as int]);
                        assert(!w.rank@.contains_key(c));
                    }
                } else if w3.rank@.contains_key(p) {
                    if c != l {
                        assert(w3.rank@.contains_key(c) ==> w3.rank@[p] <= w3.rank@[c]);
                    }
                } else {
                    assert(w0.cut@.contains((p, c)));
                    assert(w0.reached@.contains(c));
                    assert(c != l);
                    assert(w3.on_path@[c as int]);
                }
            }
            assert forall|p: usize, c: usize| #[trigger] w.cut@.contains((p, c)) && !w0.cut@.contains((p, c)) implies w.rank@.contains_key(p) by {
                if p != l {
                    assert(w3.rank@.contains_key(p));
                }
            }
            assert forall|x: usize| #[trigger] w0.rank@.contains_key(x) implies w.rank@.contains_key(x) && w.rank@[x] == w0.rank@[x] by {
                assert(w3.rank@.contains_key(x));
                assert(x != l);
            }
            assert forall|m: usize, j: int| w.found@.contains_key(m) && 0 <= j < w.found@[m].len() implies w.kept_or_cut(m, #[trigger] w.found@[m][j]) by {
                if m != l {
                    assert(w3.kept_or_cut(m, w3.found@[m][j]));
                }
            }
            assert(!w3.rank@.contains_key(l));
            assert forall|i: usize| i < n implies (#[trigger] w.rank@.contains_key(i) <==> (w.reached@.contains(i)
                && !w.on_path@[i as int])) by {
                if i != l {
                    assert(w.on_path@[i as int] == w3.on_path@[i as int]);
                }
            }
            assert forall|i: int, k: int| 0 <= i < n && 0 <= k < w.parents@[i]@.len() implies w.parent_ok(i, #[trigger] w.parents@[i]@[k]) by {
                let p = w.parents@[i]@[k];
                assert(w3.rank@.contains_key(i as usize));
                assert(i as usize != l);
            }
        }
        if !any_child {
            w.leaves.push(l);
        }
        proof {
            assert(w.on_path@ =~= w0.on_path@);
            assert(w.round@.contains(l)) by {
                assert(w.round@[w0.round@.len() as int] == l);
            }
        }
        true
    }
}


impl<T, L> EventGraph<T, L> {
    /// `self` follows `g0` after link bodies ran: nothing was removed, and
    /// every id issued since went to a new value or link.
    closed spec fn advanced_from(&self, g0: &Self) -> bool {
        &&& self.running()
        &&& g0.pc.values@.len() <= self.pc.values@.len()
        &&& g0.pc.links@.len() <= self.pc.links@.len()
        &&& g0.pc.ids <= self.pc.ids
        &&& self.pc.ids - g0.pc.ids == (self.pc.values@.len() - g0.pc.values@.len()) + (
        self.pc.links@.len() - g0.pc.links@.len())
        &&& self.pc.fresh_from == g0.pc.fresh_from
        &&& self.pc.processing == g0.pc.processing
        &&& self.last_run == g0.last_run
        &&& g0.pc.extends(&self.pc)
        &&& g0.bodies@.len() <= self.bodies@.len()
        &&& forall|i: int| 0 <= i < g0.bodies@.len() ==> #[trigger] self.bodies@[i] == g0.bodies@[i]
        &&& self.step_entry == g0.step_entry
        &&& self.round_from == g0.round_from
        &&& seeds_extend(g0.pc.seeds@, self.pc.seeds@)
        &&& g0.step_post@.len() <= self.step_post@.len()
        &&& forall|k: int| 0 <= k < g0.step_post@.len() ==> #[trigger] self.step_post@[k] == g0.step_post@[k]
        &&& self.walk_outputs == g0.walk_outputs
        &&& self.walk_reads == g0.walk_reads
        &&& self.walk_ctx == g0.walk_ctx
    }
}

impl<T, L: LinkTrait<T>> EventGraph<T, L> {
    /// Executes link `l`, then stores the bodies of the links it created.
    fn run_link(&mut self, l: usize)
        requires
            old(self).running(),
            l < old(self).pc.links@.len(),
        ensures
            final(self).advanced_from(old(self)),
            final(self).step_pre@ == old(self).step_pre@.push(old(self).pc),
            final(self).step_post@.len() == old(self).step_post@.len() + 1,
            forall|k: int| 0 <= k < old(self).step_post@.len() ==> #[trigger] final(self).step_post@[k] == old(self).step_post@[k],
            old(self).bodies@[l as int].effect(old(self).pc, final(self).step_post@.last()),
            final(self).step_post@.last().same_values(&final(self).pc),
            old(self).posts_pending() ==> final(self).posts_pending(),
    {
        let ghost pre = self.pc;
        self.bodies[l].call(&mut self.pc);
        let ghost post = self.pc;
        self.step_pre = Ghost(self.step_pre@.push(pre));
        self.step_post = Ghost(self.step_post@.push(post));
        self.commit_new_links();
        proof {
            assert(post.extends(&self.pc));
            pre.lemma_extends_trans(&post, &self.pc);
            if old(self).posts_pending() {
                assert forall|k: int, j: int|
                    0 <= k && self.round_from@ <= k < self.step_post@.len() && 0 <= j < self.step_post@[k].seeds().len()
                        implies self.pc.seeds@.contains(#[trigger] self.step_post@[k].seeds()[j]) by {
                    let x = self.step_post@[k].seeds()[j];
                    if k < self.step_post@.len() - 1 {
                        assert(self.step_post@[k] == old(self).step_post@[k]);
                        assert(old(self).step_post@[k].seeds()[j] == x);
                        assert(old(self).pc.seeds@.contains(x));
                        let i = choose|i: int| 0 <= i < old(self).pc.seeds@.len() && old(self).pc.seeds@[i] == x;
                        assert(self.pc.seeds@[i] == x);
                    } else {
                        assert(post.seeds()[j] == self.pc.seeds@[j]);
                    }
                }
            }
        }
    }

    /// The upward walk from link `l` (Step B): walks `l`'s recorded parents
    /// that are involved in this event first, then executes `l`. Each link
    /// is walked and executed at most once per event.
    fn climb(&mut self, w: &mut Walk, l: usize, n: usize)
        requires
            old(self).running(),
            n <= old(self).pc.links@.len(),
            old(w).wf(n as nat),
            old(w).reached@.contains(l),
            forall|i: int| 0 <= i < n ==> !#[trigger] old(w).on_path@[i],
            old(w).done@.subset_of(old(w).reached@),
            forall|x: usize|
                #[trigger] old(w).done@.contains(x) && !old(w).run@.contains(x) ==> old(w).rank@[x] < old(
                    w,
                ).rank@[l],
            old(w).tracks(),
            old(self).trace_ok(old(w).run@),
            old(self).posts_pending(),
            old(self).reads_ok(old(w).found@),
        ensures
            final(self).advanced_from(old(self)),
            final(self).reads_ok(final(w).found@),
            final(w).found == old(w).found,
            final(self).trace_ok(final(w).run@),
            final(self).posts_pending(),
            final(w).wf(n as nat),
            final(w).tracks(),
            final(w).edges == old(w).edges,
            final(w).cut == old(w).cut,
            final(w).found == old(w).found,
            final(w).round_of == old(w).round_of,
            final(w).round_no == old(w).round_no,
            final(w).rank == old(w).rank,
            final(w).clock == old(w).clock,
            final(w).run@.contains(l),
            final(w).involved == old(w).involved,
            final(w).on_path == old(w).on_path,
            final(w).leaves == old(w).leaves,
            final(w).round == old(w).round,
            final(w).reached == old(w).reached,
            old(w).done@.subset_of(final(w).done@),
            final(w).done@.contains(l),
            forall|x: usize| #[trigger] final(w).done@.contains(x) ==> old(w).done@.contains(x) || old(
                w,
            ).reached@.contains(x),
            old(w).run@.len() <= final(w).run@.len(),
            forall|k: int| 0 <= k < old(w).run@.len() ==> final(w).run@[k] == old(w).run@[k],
            forall|k: int|
                old(w).run@.len() <= k < final(w).run@.len() ==> !old(w).done@.contains(#[trigger] final(w).run@[k]),
            forall|x: usize|
                (#[trigger] final(w).done@.contains(x) && !final(w).run@.contains(x)) == (old(w).done@.contains(x)
                    && !old(w).run@.contains(x)),
            !old(w).done@.contains(l) ==> final(w).run@.contains(l),
        decreases n - w.done@.len(),
    {
        if w.processed[l] {
            proof {
                assert(w.done@.contains(l));
                if !w.run@.contains(l) {
                    assert(w.rank@[l] < w.rank@[l]);
                }
            }
            return;
        }
        proof {
            lemma_bounded_set(w.done@, n);
        }
        let ghost w0 = *w;
        let ghost g0 = *self;
        w.processed.set(l, true);
        w.done = Ghost(w.done@.insert(l));
        let mut ps: Vec<usize> = Vec::new();
        w.parents.set_and_swap(l, &mut ps);
        proof {
            assert(w0.rank@.contains_key(l));
            assert forall|j: int| 0 <= j < ps@.len() implies #[trigger] w0.rank@.contains_key(ps@[j]) && w0.rank@[l]
                < w0.rank@[ps@[j]] && ps@[j] < n by {
                assert(w0.parent_ok(l as int, w0.parents@[l as int]@[j]));
            }
            assert forall|i: int, k: int| 0 <= i < n && 0 <= k < w.parents@[i]@.len() implies w.parent_ok(i, #[trigger] w.parents@[i]@[k]) by {
                assert(i != l);
                assert(w0.parent_ok(i, w0.parents@[i]@[k]));
            }
            assert forall|p: usize, c: usize| #[trigger] w.edges@.contains((p, c)) && !w.done@.contains(c) implies c < w.parents@.len() && w.parents@[c as int]@.contains(p) by {
                assert(c != l);
                assert(w.parents@[c as int] == w0.parents@[c as int]);
            }
            assert(w.tracks());
        }
        let mut k: usize = 0;
        while k < ps.len()
            invariant
                w0 == *old(w),
                g0 == *old(self),
                w0.wf(n as nat),
                l < n,
                !w0.done@.contains(l),
                w0.reached@.contains(l),
                n <= self.pc.links@.len(),
                self.advanced_from(&g0),
                w.wf(n as nat),
                w.involved == w0.involved,
                w.on_path == w0.on_path,
                w.leaves == w0.leaves,
                w.round == w0.round,
                w.reached == w0.reached,
                w0.done@.insert(l).subset_of(w.done@),
                forall|x: usize| #[trigger] w.done@.contains(x) ==> w0.done@.contains(x) || w0.reached@.contains(x),
                w0.run@.len() <= w.run@.len(),
                forall|j: int| 0 <= j < w0.run@.len() ==> w.run@[j] == w0.run@[j],
                forall|j: int|
                    w0.run@.len() <= j < w.run@.len() ==> !w0.done@.insert(l).contains(#[trigger] w.run@[j]),
                forall|x: usize|
                    (#[trigger] w.done@.contains(x) && !w.run@.contains(x)) == ((w0.done@.contains(x)
                        && !w0.run@.contains(x)) || x == l),
                ps@ == w0.parents@[l as int]@,
                k <= ps@.len(),
                w.rank == w0.rank,
                w.clock == w0.clock,
                w.upstream@.dom().subset_of(w.run@.to_set()),
                forall|i: int| 0 <= i < n ==> !#[trigger] w0.on_path@[i],
                w0.done@.subset_of(w0.reached@),
                w0.rank@.contains_key(l),
                forall|x: usize|
                    #[trigger] w0.done@.contains(x) && !w0.run@.contains(x) ==> w0.rank@[x] < w0.rank@[l],
                forall|j: int|
                    0 <= j < ps@.len() ==> #[trigger] w0.rank@.contains_key(ps@[j]) && w0.rank@[l] < w0.rank@[ps@[j]]
                        && ps@[j] < n,
                forall|j: int| 0 <= j < k ==> w.run@.contains(#[trigger] ps@[j]),
                w.tracks(),
                w0.tracks(),
                w.edges == w0.edges,
                w.cut == w0.cut,
                w.found == w0.found,
                w.round_of == w0.round_of,
                w.round_no == w0.round_no,
                !w.upstream@.contains_key(l),
                !w0.done@.contains(l),
                self.trace_ok(w.run@),
                self.posts_pending(),
                self.reads_ok(w.found@),
                w.found == w0.found,
            decreases ps@.len() - k,
        {
            let p = ps[k];
            proof {
                assert(w0.rank@.contains_key(ps@[k as int]));
                assert(w.reached@.contains(p));
            }
            if p < n && w.involved[p] {
                let ghost w1 = *w;
                let ghost g1 = *self;
                proof {
                    lemma_bounded_set(w.done@, n);
                    lemma_bounded_set(w0.done@, n);
                    vstd::set::axiom_set_insert_len(w0.done@, l);
                    vstd::set_lib::lemma_len_subset(w0.done@.insert(l), w.done@);
                }
                proof {
                    assert forall|x: usize| #[trigger] w.done@.contains(x) && !w.run@.contains(x) implies w.rank@[x] < w.rank@[p] by {
                        if x != l {
                            assert(w0.done@.contains(x) && !w0.run@.contains(x));
                        }
                    }
                    assert(w.done@.subset_of(w.reached@)) by {
                        assert forall|x: usize| w.done@.contains(x) implies w.reached@.contains(x) by {
                            if !w0.done@.contains(x) && x != l {
                                assert(w0.reached@.contains(x));
                            }
                        }
                    }
                }
                self.climb(w, p, n);
                proof {
                    assert forall|j: int| 0 <= j < k + 1 implies w.run@.contains(#[trigger] ps@[j]) by {
                        if j < k {
                            assert(w1.run@.contains(ps@[j]));
                            let i = choose|i: int| 0 <= i < w1.run@.len() && w1.run@[i] == ps@[j];
                            assert(w.run@[i] == ps@[j]);
                        }
                    }
                    assert forall|j: int| w0.run@.len() <= j < w.run@.len() implies !w0.done@.insert(l).contains(#[trigger] w.run@[j]) by {
                        if j >= w1.run@.len() {
                            assert(!w1.done@.contains(w.run@[j]));
                        } else {
                            assert(w.run@[j] == w1.run@[j]);
                        }
                    }
                    assert forall|x: usize| (#[trigger] w.done@.contains(x) && !w.run@.contains(x)) == ((w0.done@.contains(x)
                        && !w0.run@.contains(x)) || x == l) by {
                        assert((w.done@.contains(x) && !w.run@.contains(x)) == (w1.done@.contains(x) && !w1.run@.contains(x)));
                    }
                }
            }
            k = k + 1;
        }
        let ghost w2 = *w;
        let ghost g2 = *self;
        self.run_link(l);
        proof {
            g2.lemma_reads_ok_kept(self, w.found@);
        }
        w.upstream = Ghost(w.upstream@.insert(l, ps@));
        w.run = Ghost(w.run@.push(l));
        proof {
            let run = w.run@;
            assert forall|k: int| 0 <= k < run.len() implies #[trigger] run[k] < self.bodies@.len() && self.bodies@[run[k] as int].effect(
                self.step_pre@[k],
                self.step_post@[k],
            ) by {
                if k < run.len() - 1 {
                    assert(run[k] == w2.run@[k]);
                    assert(g2.bodies@[run[k] as int] == self.bodies@[run[k] as int]);
                    assert(self.step_pre@[k] == g2.step_pre@[k]);
                } else {
                    assert(run[k] == l);
                    assert(g2.bodies@[l as int] == self.bodies@[l as int]);
                }
            }
            if run.len() > 1 {
                assert(self.step_pre@[0] == g2.step_pre@[0]);
            } else {
                assert(g2.last_ctx() == g2.step_entry@);
            }
            assert forall|k: int| 0 <= k < run.len() - 1 implies (#[trigger] self.step_post@[k]).same_values(&self.step_pre@[k + 1]) by {
                if k < run.len() - 2 {
                    assert(self.step_pre@[k + 1] == g2.step_pre@[k + 1]);
                } else {
                    assert(self.step_post@[k] == g2.step_post@.last());
                    assert(self.step_pre@[k + 1] == g2.pc);
                }
            }
            assert(!w2.run@.contains(l)) by {
                if w2.run@.contains(l) {
                    let j = choose|j: int| 0 <= j < w2.run@.len() && w2.run@[j] == l;
                    if j < w0.run@.len() {
                        assert(w0.done@.contains(w0.run@[j]));
                    }
                }
            }
            assert(w.run@[w.run@.len() - 1] == l);
            let last = w.run@.len() - 1;
            assert forall|p: usize, c: usize| #[trigger] w.edges@.contains((p, c)) && w.upstream@.contains_key(c) && w.round_of@[p] == w.round_of@[c] implies w.upstream@[c].contains(p) by {
                if c == l {
                    assert(w0.parents@[l as int]@.contains(p));
                } else {
                    assert(w2.upstream@.contains_key(c));
                }
            }
            assert forall|x: usize| #[trigger] w.upstream@.contains_key(x) implies w.run@.contains(x) by {
                if x != l {
                    assert(w2.run@.contains(x));
                    let j = choose|j: int| 0 <= j < w2.run@.len() && w2.run@[j] == x;
                    assert(w.run@[j] == x);
                }
            }
            assert forall|j: int| 0 <= j < w.run@.len() implies w.upstream@.contains_key(#[trigger] w.run@[j]) by {
                if j < last {
                    assert(w.run@[j] == w2.run@[j]);
                }
            }
            assert forall|j: int, k: int|
                0 <= j < w.run@.len() && 0 <= k < w.upstream@[w.run@[j]].len() implies ran_before(
                    w.run@,
                    #[trigger] w.upstream@[w.run@[j]][k],
                    j,
                ) by {
                if j < last {
                    assert(w.run@[j] == w2.run@[j]);
                    assert(w2.run@[j] != l);
                    let p = w2.upstream@[w2.run@[j]][k];
                    assert(ran_before(w2.run@, p, j));
                    let i = choose|i: int| 0 <= i < j && w2.run@[i] == p;
                    assert(w.run@[i] == p);
                } else {
                    let p = ps@[k];
                    assert(w2.run@.contains(p));
                    let i = choose|i: int| 0 <= i < w2.run@.len() && w2.run@[i] == p;
                    assert(w.run@[i] == p);
                }
            }
            assert forall|x: usize| (#[trigger] w.done@.contains(x) && !w.run@.contains(x)) == (w0.done@.contains(x)
                && !w0.run@.contains(x)) by {
                if x != l {
                    assert(w.run@.contains(x) == w2.run@.contains(x)) by {
                        if w2.run@.contains(x) {
                            let j = choose|j: int| 0 <= j < w2.run@.len() && w2.run@[j] == x;
                            assert(w.run@[j] == x);
                        }
                        if w.run@.contains(x) {
                            let j = choose|j: int| 0 <= j < w.run@.len() && w.run@[j] == x;
                            assert(w2.run@[j] == x);
                        }
                    }
                } else {
                    assert(w.run@.contains(l));
                }
            }
        }
    }
}


impl<T, L> EventGraph<T, L> {
    /// Phase 3: clears the per-event state of every value enrolled for
    /// cleanup, and the registry itself.
    fn clean_values(&mut self)
        requires
            old(self).pc.wf(),
        ensures
            final(self).pc.wf(),
            final(self).pc.cleanup@.len() == 0,
            forall|i: usize| i < final(self).pc.values@.len() ==> !(#[trigger] final(self).pc.values@[i as int].state).is_dirty(),
            forall|i: int|
                0 <= i < final(self).pc.values@.len() ==> (#[trigger] final(self).pc.values@[i].state).same_payload(
                    old(self).pc.values@[i].state,
                ),
            final(self).pc.values@.len() == old(self).pc.values@.len(),
            forall|i: int| 0 <= i < final(self).pc.values@.len() ==> #[trigger] final(self).pc.values@[i].id == old(self).pc.values@[i].id,
            final(self).pc.links == old(self).pc.links,
            final(self).pc.new_bodies == old(self).pc.new_bodies,
            final(self).step_entry == old(self).step_entry,
            final(self).step_pre == old(self).step_pre,
            final(self).step_post == old(self).step_post,
            final(self).pc.stored == old(self).pc.stored,
            final(self).pc.fresh_from == old(self).pc.fresh_from,
            final(self).pc.seeds == old(self).pc.seeds,
            final(self).pc.ids == old(self).pc.ids,
            final(self).pc.processing == old(self).pc.processing,
            final(self).bodies == old(self).bodies,
            final(self).last_run == old(self).last_run,
            final(self).walk_outputs == old(self).walk_outputs,
            final(self).walk_reads == old(self).walk_reads,
            final(self).walk_ctx == old(self).walk_ctx,
    {
        proof {
            assert forall|i: usize|
                i < self.pc.values@.len() && (#[trigger] self.pc.values@[i as int].state).is_dirty() implies exists|j: int|
                    0 <= j < self.pc.cleanup@.len() && self.pc.cleanup@[j] == i by {
                assert(self.pc.cleanup@.contains(i));
            }
        }
        let mut k: usize = 0;
        while k < self.pc.cleanup.len()
            invariant
                self.pc.wf(),
                k <= self.pc.cleanup@.len(),
                self.pc.cleanup == old(self).pc.cleanup,
                forall|i: usize|
                    i < self.pc.values@.len() && (#[trigger] self.pc.values@[i as int].state).is_dirty() ==> exists|j: int|
                        k <= j < self.pc.cleanup@.len() && self.pc.cleanup@[j] == i,
                forall|i: int|
                    0 <= i < self.pc.values@.len() ==> (#[trigger] self.pc.values@[i].state).same_payload(
                        old(self).pc.values@[i].state,
                    ),
                self.pc.values@.len() == old(self).pc.values@.len(),
                forall|i: int| 0 <= i < self.pc.values@.len() ==> #[trigger] self.pc.values@[i].id == old(self).pc.values@[i].id,
                forall|i: int| 0 <= i < self.pc.values@.len() ==> #[trigger] self.pc.values@[i].next == old(self).pc.values@[i].next,
                self.pc.links == old(self).pc.links,
                self.pc.new_bodies == old(self).pc.new_bodies,
                self.pc.stored == old(self).pc.stored,
                self.pc.fresh_from == old(self).pc.fresh_from,
                self.pc.seeds == old(self).pc.seeds,
                self.pc.ids == old(self).pc.ids,
                self.pc.processing == old(self).pc.processing,
                self.bodies == old(self).bodies,
                self.last_run == old(self).last_run,
                self.step_entry == old(self).step_entry,
                self.step_pre == old(self).step_pre,
                self.step_post == old(self).step_post,
                self.walk_outputs == old(self).walk_outputs,
                self.walk_reads == old(self).walk_reads,
                self.walk_ctx == old(self).walk_ctx,
            decreases self.pc.cleanup@.len() - k,
        {
            let v = self.pc.cleanup[k];
            let ghost before = self.pc.values@;
            self.pc.values[v].state.clean();
            proof {
                assert(before[v as int].state.same_payload(old(self).pc.values@[v as int].state));
                assert(self.pc.values@[v as int].state.same_payload(old(self).pc.values@[v as int].state)) by {
                    match (self.pc.values@[v as int].state, before[v as int].state) {
                        (ValueState::List(a), ValueState::List(b)) => {},
                        _ => {},
                    }
                }
                assert forall|i: usize|
                    i < self.pc.values@.len() && (#[trigger] self.pc.values@[i as int].state).is_dirty() implies exists|j: int|
                        k + 1 <= j < self.pc.cleanup@.len() && self.pc.cleanup@[j] == i by {
                    assert(i != v);
                    assert(before[i as int].state.is_dirty());
                    let j = choose|j: int| k <= j < self.pc.cleanup@.len() && self.pc.cleanup@[j] == i;
                    assert(j != k);
                }
                assert forall|i: usize|
                    i < self.pc.values@.len() && (#[trigger] self.pc.values@[i as int].state).is_dirty() implies self.pc.cleanup@.contains(i) by {
                    let j = choose|j: int| k + 1 <= j < self.pc.cleanup@.len() && self.pc.cleanup@[j] == i;
                    assert(self.pc.cleanup@[j] == i);
                }
            }
            k = k + 1;
        }
        self.pc.cleanup.clear();
    }
}


impl<T, L: LinkTrait<T>> EventGraph<T, L> {
    /// Runs `f` to change values and create values and links, then
    /// propagates: every link downstream of a changed value, and every new
    /// link, runs once, after the links upstream of it in the same round.
    /// Per-event state is cleared before returning. A call made while an
    /// event is in progress is ignored and returns `None`.
    pub fn event<R, F: FnOnce(&mut ProcessingContext<T, L>) -> R>(&mut self, f: F) -> (r: Option<R>)
        requires
            old(self).wf(),
            forall|pc: &mut ProcessingContext<T, L>| pc.wf() ==> f.requires((pc,)),
            forall|pc: &mut ProcessingContext<T, L>, r: R|
                f.ensures((pc,), r) ==> final(pc).wf() && (*pc).grows_to(final(pc)),
        ensures
            final(self).wf(),
            old(self).context().in_propagation() ==> r is None && *final(self) == *old(self),
            !old(self).context().in_propagation() ==> {
                &&& r is Some
                &&& final(self).context().quiescent()
                // The callback ran on the old context; `r` holds its result,
                // and propagation started from the values it left.
                &&& exists|pc: &mut ProcessingContext<T, L>|
                    *pc == old(self).context() && #[trigger] f.ensures((pc,), r->0) && final(pc).same_values(
                        &final(self).last_entry(),
                    )
                // Each link ran at most once.
                &&& final(self).last_run().no_duplicates()
                // Each link created during the event ran.
                &&& forall|l: usize|
                    old(self).context().link_count() <= l < final(self).context().link_count()
                        ==> final(self).last_run().contains(l)
                &&& forall|k: int|
                    0 <= k < final(self).last_run().len() ==> #[trigger] final(self).last_run()[k]
                        < final(self).context().link_count()
                // A link ran after every link upstream of it by a recorded edge,
                // both discovered in the same round.
                &&& forall|j: int, p: usize|
                    0 <= j < final(self).last_run().len() && #[trigger] final(self).last_edges().contains(
                        (p, final(self).last_run()[j]),
                    ) && final(self).last_round()[p] == final(self).last_round()[final(self).last_run()[j]]
                        ==> ran_before(final(self).last_run(), p, j)
                // Every link found downstream of a walked link was recorded as
                // downstream of it, or cut as a cycle edge.
                &&& forall|l: usize, k: int|
                    final(self).last_found().contains_key(l) && 0 <= k < final(self).last_found()[l].len() ==> {
                        ||| final(self).last_edges().contains((l, #[trigger] final(self).last_found()[l][k]))
                        ||| final(self).last_cut().contains((l, final(self).last_found()[l][k]))
                    }
                // Every link that ran was walked, and every link found downstream
                // of a walked link ran.
                &&& forall|j: int|
                    0 <= j < final(self).last_run().len() ==> final(self).last_found().contains_key(
                        #[trigger] final(self).last_run()[j],
                    )
                &&& forall|l: usize, k: int|
                    final(self).last_found().contains_key(l) && 0 <= k < final(self).last_found()[l].len()
                        ==> final(self).last_run().contains(#[trigger] final(self).last_found()[l][k])
                // Recorded edges lead to links whose walk finished earlier, so
                // they close no cycle; cut edges lead to a link still on the
                // walk's path.
                &&& forall|p: usize, c: usize|
                    #[trigger] final(self).last_edges().contains((p, c)) ==> {
                        &&& final(self).last_finish().contains_key(p)
                        &&& final(self).last_finish().contains_key(c)
                        &&& final(self).last_finish()[c] < final(self).last_finish()[p]
                    }
                &&& forall|p: usize, c: usize|
                    #[trigger] final(self).last_cut().contains((p, c)) ==> {
                        &&& final(self).last_finish().contains_key(p)
                        &&& final(self).last_finish().contains_key(c)
                        &&& final(self).last_finish()[p] <= final(self).last_finish()[c]
                    }
                // The links that ran were really called: each body's effect
                // leads from the recorded context before its run to the one
                // after; the values change only by those runs, starting from
                // what the callback left, and end cleaned.
                &&& final(self).last_pre().len() == final(self).last_run().len()
                &&& final(self).last_post().len() == final(self).last_run().len()
                &&& forall|k: int|
                    0 <= k < final(self).last_run().len() ==> final(self).body(
                        #[trigger] final(self).last_run()[k],
                    ).effect(final(self).last_pre()[k], final(self).last_post()[k])
                &&& final(self).last_run().len() > 0 ==> final(self).last_entry().same_values(
                    &final(self).last_pre()[0],
                )
                &&& forall|k: int|
                    0 <= k < final(self).last_run().len() - 1 ==> (#[trigger] final(self).last_post()[k]).same_values(
                        &final(self).last_pre()[k + 1],
                    )
                &&& final(self).context().cleaned_from(&final(self).last_ctx())
                // Handles made before the event stay valid, and links keep
                // their bodies.
                &&& old(self).context().extends(&final(self).context())
                &&& forall|l: usize| l < old(self).context().link_count() ==> #[trigger] final(self).body(l) == old(
                    self,
                ).body(l)
                // The walk of each link read the outputs its body declares; for
                // each output, it read the live entries of that value's fan-out
                // list (nothing if the output names no value), and the links
                // found downstream are exactly those entries, in order.
                &&& forall|l: usize|
                    #[trigger] final(self).last_found().contains_key(l) ==> {
                        &&& final(self).last_outputs().contains_key(l)
                        &&& final(self).last_reads().contains_key(l)
                        &&& final(self).last_read_ctx().contains_key(l)
                        &&& final(self).body(l).declares(final(self).last_outputs()[l])
                        &&& final(self).last_reads()[l].len() == final(self).last_outputs()[l].len()
                        &&& final(self).last_read_ctx()[l].len() == final(self).last_outputs()[l].len()
                        &&& final(self).last_found()[l] == final(self).last_reads()[l].flatten()
                        &&& forall|k: int|
                            0 <= k < final(self).last_outputs()[l].len() ==> fanout_read(
                                final(self).last_read_ctx()[l][k],
                                final(self).last_outputs()[l][k],
                                #[trigger] final(self).last_reads()[l][k],
                            )
                    }
                // Every link scheduled ran: those the callback scheduled, and
                // those each run scheduled.
                &&& forall|l: usize|
                    #[trigger] final(self).last_entry().seeds().contains(l) ==> final(self).last_run().contains(l)
                        && final(self).last_found().contains_key(l)
                &&& forall|k: int, j: int|
                    0 <= k < final(self).last_post().len() && 0 <= j < final(self).last_post()[k].seeds().len()
                        ==> final(self).last_run().contains(#[trigger] final(self).last_post()[k].seeds()[j])
                // No value keeps per-event state.
                &&& forall|i: usize|
                    i < final(self).context().value_count()
                        ==> !(#[trigger] final(self).context().state(i as int)).is_dirty()
                &&& old(self).context().value_count() <= final(self).context().value_count()
                &&& old(self).context().link_count() <= final(self).context().link_count()
            },
    {
        if self.pc.processing {
            return None;
        }
        let ghost n0 = self.pc.links@.len();
        let ghost v0 = self.pc.values@.len();
        let ghost c0 = self.pc;
        let ghost b0 = self.bodies@;
        let out = f(&mut self.pc);
        let ghost c1 = self.pc;
        proof {
            assert(exists|pc: &mut ProcessingContext<T, L>| *pc == c0 && #[trigger] f.ensures((pc,), out) && *final(pc) == c1);
        }
        self.pc.processing = true;
        self.commit_new_links();
        proof {
            assert(c0.extends(&c1));
            assert(c1.extends(&self.pc));
            c0.lemma_extends_trans(&c1, &self.pc);
        }
        self.step_entry = Ghost(self.pc);
        proof {
            assert(c1.same_values(&self.step_entry@));
        }
        self.step_pre = Ghost(Seq::empty());
        self.step_post = Ghost(Seq::empty());
        let ghost e0 = self.step_entry@;
        let mut w = Walk::new();
        while self.pc.seeds.len() > 0
            invariant
                self.running(),
                self.pc.processing,
                n0 <= self.pc.fresh_from,
                v0 <= self.pc.values@.len(),
                n0 <= self.pc.links@.len(),
                w.wf(w.involved@.len() as nat),
                w.involved@.len() <= self.pc.links@.len(),
                w.done@ == w.reached@,
                forall|x: usize| #[trigger] w.reached@.contains(x) ==> w.run@.contains(x),
                forall|i: int| 0 <= i < w.on_path@.len() ==> !#[trigger] w.on_path@[i],
                forall|l: usize| n0 <= l < self.pc.fresh_from ==> #[trigger] w.run@.contains(l),
                w.leaves@.len() == 0,
                w.round@.len() == 0,
                w.tracks(),
                self.trace_ok(w.run@),
                c0.extends(&self.pc),
                b0.len() <= self.bodies@.len(),
                forall|i: int| 0 <= i < b0.len() ==> #[trigger] self.bodies@[i] == b0[i],
                b0.len() == c0.link_count(),
                self.step_entry@ == e0,
                c1.same_values(&e0),
                self.reads_ok(w.found@),
                forall|l: usize| #[trigger] e0.seeds().contains(l) ==> w.run@.contains(l) || self.pc.seeds@.contains(l),
                forall|k: int, j: int|
                    0 <= k < self.step_post@.len() && 0 <= j < self.step_post@[k].seeds().len() ==> w.run@.contains(
                        #[trigger] self.step_post@[k].seeds()[j],
                    ) || self.pc.seeds@.contains(self.step_post@[k].seeds()[j]),
            decreases usize::MAX - self.pc.ids, self.pc.links@.len() - w.reached@.len(), self.pc.seeds@.len(),
        {
            let ghost g_start = *self;
            let ghost ids_start = self.pc.ids;
            let ghost links_start = self.pc.links@.len();
            let ghost seeds_start = self.pc.seeds@.len();
            let ghost reached0 = w.reached@;
            let ghost run0 = w.run@;
            proof {
                lemma_bounded_set(w.reached@, w.involved@.len() as usize);
            }
            let n = self.pc.links.len();
            w.grow(n);
            w.round_no = Ghost(w.round_no@ + 1);
            let ghost rn = w.round_no@;
            proof {
                assert forall|x: usize| #[trigger] w.reached@.contains(x) implies w.round_of@.contains_key(x) && w.round_of@[x]
                    <= w.round_no@ by {}
            }
            let ghost posts0 = self.step_post@;
            let mut seeds: Vec<usize> = Vec::new();
            std::mem::swap(&mut seeds, &mut self.pc.seeds);
            let ghost old_fresh = self.pc.fresh_from;
            self.pc.fresh_from = n;
            proof {
                assert forall|l: usize| old_fresh <= l < n implies seeds@.contains(l) by {}
            }
            self.round_from = Ghost(self.step_post@.len() as int);
            // Step A: the downward walk from every seed.
            let ghost ga = *self;
            proof {
                g_start.lemma_reads_ok_kept(self, w.found@);
                assert(g_start.pc.extends(&ga.pc));
                c0.lemma_extends_trans(&g_start.pc, &ga.pc);
                assert(ga.last_ctx() == g_start.last_ctx());
                g_start.last_ctx().lemma_same_values_trans(&g_start.pc, &ga.pc);
            }
            let mut k: usize = 0;
            while k < seeds.len()
                invariant
                    self.same_links(&ga),
                    ga.pc.links@.len() == n,
                    ga.pc.seeds@.len() == 0,
                    forall|j: int| 0 <= j < seeds@.len() ==> #[trigger] seeds@[j] < n,
                    w.wf(n as nat),
                    forall|i: int| 0 <= i < w.on_path@.len() ==> !#[trigger] w.on_path@[i],
                    w.done@ == reached0,
                    w.run@ == run0,
                    reached0.subset_of(w.reached@),
                    forall|j: int| 0 <= j < k ==> w.reached@.contains(#[trigger] seeds@[j]),
                    forall|j: int| 0 <= j < w.round@.len() ==> !reached0.contains(#[trigger] w.round@[j]),
                    forall|x: usize| #[trigger] w.reached@.contains(x) && !reached0.contains(x) ==> w.round@.contains(x),
                    w.tracks(),
                    w.round_no@ == rn,
                    forall|x: usize| #[trigger] reached0.contains(x) ==> w.round_of@.contains_key(x) && w.round_of@[x] < rn,
                    self.reads_ok(w.found@),
                    k <= seeds@.len(),
                decreases seeds@.len() - k,
            {
                let s = seeds[k];
                let ghost wb = w;
                proof {
                    assert forall|x: usize| #[trigger] w.done@.contains(x) implies w.round_of@[x] < w.round_no@ by {
                        assert(reached0.contains(x));
                    }
                }
                self.discover(&mut w, s, n);
                proof {
                    assert forall|j: int| 0 <= j < w.round@.len() implies !reached0.contains(#[trigger] w.round@[j]) by {
                        if j >= wb.round@.len() {
                            assert(!wb.reached@.contains(w.round@[j]));
                        } else {
                            assert(w.round@[j] == wb.round@[j]);
                        }
                    }
                    assert forall|x: usize| #[trigger] w.reached@.contains(x) && !reached0.contains(x) implies w.round@.contains(x) by {
                        if wb.reached@.contains(x) {
                            let j = choose|j: int| 0 <= j < wb.round@.len() && wb.round@[j] == x;
                            assert(w.round@[j] == x);
                        }
                    }
                    assert(w.on_path@ =~= wb.on_path@);
                    assert forall|x: usize| #[trigger] reached0.contains(x) implies w.round_of@.contains_key(x) && w.round_of@[x] < rn by {
                        assert(wb.round_of@.contains_key(x) && wb.reached@.contains(x));
                    }
                }
                k = k + 1;
            }
            // Step B: the upward walk from the leaves; every link discovered
            // in this round is a starting point too, so that none is left out.
            proof {
                assert(ga.pc.extends(&self.pc));
                c0.lemma_extends_trans(&ga.pc, &self.pc);
                assert(self.last_ctx() == ga.last_ctx());
                ga.last_ctx().lemma_same_values_trans(&ga.pc, &self.pc);
                assert(self.trace_ok(w.run@));
            }
            let mut leaves: Vec<usize> = Vec::new();
            std::mem::swap(&mut leaves, &mut w.leaves);
            let mut round: Vec<usize> = Vec::new();
            std::mem::swap(&mut round, &mut w.round);
            let ghost reached1 = w.reached@;
            let ghost gb = *self;
            if round.len() > 0 {
                let mut k: usize = 0;
                while k < leaves.len()
                    invariant
                        self.advanced_from(&gb),
                        n <= self.pc.links@.len(),
                        w.wf(n as nat),
                        w.reached@ == reached1,
                        forall|i: int| 0 <= i < w.on_path@.len() ==> !#[trigger] w.on_path@[i],
                        w.leaves@.len() == 0,
                        w.round@.len() == 0,
                        reached0.subset_of(w.done@),
                        w.done@.subset_of(reached1),
                        forall|x: usize| #[trigger] w.done@.contains(x) ==> w.run@.contains(x),
                        forall|j: int| 0 <= j < leaves@.len() ==> #[trigger] leaves@[j] < n,
                        w.tracks(),
                        self.trace_ok(w.run@),
                        self.posts_pending(),
                        self.reads_ok(w.found@),
                        k <= leaves@.len(),
                    decreases leaves@.len() - k,
                {
                    let leaf = leaves[k];
                    if w.involved[leaf] {
                        let ghost wb = w;
                        self.climb(&mut w, leaf, n);
                        proof {
                            assert forall|x: usize| #[trigger] w.done@.contains(x) implies w.run@.contains(x) by {
                                if wb.done@.contains(x) {
                                    assert(wb.run@.contains(x));
                                    let j = choose|j: int| 0 <= j < wb.run@.len() && wb.run@[j] == x;
                                    assert(w.run@[j] == x);
                                }
                            }
                        }
                    }
                    k = k + 1;
                }
                let mut k: usize = 0;
                while k < round.len()
                    invariant
                        self.advanced_from(&gb),
                        n <= self.pc.links@.len(),
                        w.wf(n as nat),
                        w.reached@ == reached1,
                        forall|i: int| 0 <= i < w.on_path@.len() ==> !#[trigger] w.on_path@[i],
                        w.leaves@.len() == 0,
                        w.round@.len() == 0,
                        reached0.subset_of(w.done@),
                        w.done@.subset_of(reached1),
                        forall|x: usize| #[trigger] w.done@.contains(x) ==> w.run@.contains(x),
                        forall|j: int| 0 <= j < round@.len() ==> #[trigger] round@[j] < n,
                        forall|j: int| 0 <= j < round@.len() ==> reached1.contains(#[trigger] round@[j]),
                        forall|j: int| 0 <= j < k ==> w.done@.contains(#[trigger] round@[j]),
                        w.tracks(),
                        self.trace_ok(w.run@),
                        self.posts_pending(),
                        self.reads_ok(w.found@),
                        k <= round@.len(),
                    decreases round@.len() - k,
                {
                    let r = round[k];
                    let ghost wb = w;
                    self.climb(&mut w, r, n);
                    proof {
                        assert forall|x: usize| #[trigger] w.done@.contains(x) implies w.run@.contains(x) by {
                            if wb.done@.contains(x) {
                                assert(wb.run@.contains(x));
                                let j = choose|j: int| 0 <= j < wb.run@.len() && wb.run@[j] == x;
                                assert(w.run@[j] == x);
                            }
                        }
                    }
                    k = k + 1;
                }
                proof {
                    assert(w.done@ =~= reached1) by {
                        assert forall|x: usize| reached1.contains(x) implies w.done@.contains(x) by {
                            if !reached0.contains(x) {
                                let j = choose|j: int| 0 <= j < round@.len() && round@[j] == x;
                                assert(w.done@.contains(round@[j]));
                            }
                        }
                    }
                    assert(reached1.contains(round@[0]) && !reached0.contains(round@[0]));
                    lemma_bounded_set(reached1, n);
                    lemma_bounded_set(reached0, n);
                    vstd::set::axiom_set_insert_len(reached0, round@[0]);
                    vstd::set_lib::lemma_len_subset(reached0.insert(round@[0]), reached1);
                }
            } else {
                proof {
                    assert(reached1 =~= reached0) by {
                        assert forall|x: usize| reached1.contains(x) implies reached0.contains(x) by {
                            if !reached0.contains(x) {
                                assert(round@.contains(x));
                            }
                        }
                    }
                    assert(w.done@ == reached1);
                }
            }
            proof {
                assert(gb.pc.extends(&self.pc));
                c0.lemma_extends_trans(&gb.pc, &self.pc);
                assert forall|i: int| 0 <= i < b0.len() implies #[trigger] self.bodies@[i] == b0[i] by {
                    assert(gb.bodies@[i] == b0[i]);
                }
            }
            proof {
                assert forall|x: usize| #[trigger] seeds@.contains(x) implies w.run@.contains(x) by {
                    let j = choose|j: int| 0 <= j < seeds@.len() && seeds@[j] == x;
                    assert(reached1.contains(seeds@[j]));
                    assert(w.done@.contains(x));
                }
                assert forall|x: usize| #[trigger] run0.contains(x) implies w.run@.contains(x) by {
                    let j = choose|j: int| 0 <= j < run0.len() && run0[j] == x;
                    assert(reached0.contains(run0[j]));
                    assert(w.done@.contains(x));
                }
                assert forall|l: usize| #[trigger] e0.seeds().contains(l) implies w.run@.contains(l) || self.pc.seeds@.contains(l) by {
                    if run0.contains(l) {
                    } else {
                        assert(seeds@.contains(l));
                    }
                }
                assert forall|k: int, j: int|
                    0 <= k < self.step_post@.len() && 0 <= j < self.step_post@[k].seeds().len() implies w.run@.contains(
                        #[trigger] self.step_post@[k].seeds()[j],
                    ) || self.pc.seeds@.contains(self.step_post@[k].seeds()[j]) by {
                    let x = self.step_post@[k].seeds()[j];
                    if k < posts0.len() {
                        assert(self.step_post@[k] == posts0[k]);
                        assert(posts0[k].seeds()[j] == x);
                        if run0.contains(x) {
                        } else {
                            assert(seeds@.contains(x));
                        }
                    } else {
                        assert(self.round_from@ == posts0.len());
                    }
                }
            }
            proof {
                assert forall|l: usize| n0 <= l < self.pc.fresh_from implies #[trigger] w.run@.contains(l) by {
                    if l < old_fresh {
                        assert(run0.contains(l));
                        let j = choose|j: int| 0 <= j < run0.len() && run0[j] == l;
                        assert(reached0.contains(run0[j]));
                        assert(w.done@.contains(l));
                    } else {
                        assert(seeds@.contains(l));
                        let j = choose|j: int| 0 <= j < seeds@.len() && seeds@[j] == l;
                        assert(reached1.contains(seeds@[j]));
                        assert(w.done@.contains(l));
                    }
                }
            }
        }
        proof {
            if self.pc.fresh_from < self.pc.links@.len() {
                assert(self.pc.seeds@.contains(self.pc.fresh_from));
            }
            lemma_bounded_set(w.done@, w.involved@.len() as usize);
            assert forall|k: int| 0 <= k < w.run@.len() implies #[trigger] w.run@[k] < self.pc.links@.len() by {
                assert(w.done@.contains(w.run@[k]));
            }
        }
        let ghost g_end = *self;
        let value_total = self.pc.values.len();
        self.clean_values();
        self.pc.processing = false;
        proof {
            assert forall|i: int| 0 <= i < self.pc.value_count() implies {
                &&& (#[trigger] self.pc.state(i)).same_payload(g_end.last_ctx().state(i))
                &&& !self.pc.state(i).is_dirty()
                &&& self.pc.value_id(i) == g_end.last_ctx().value_id(i)
            } by {
                assert(g_end.pc.state(i) == g_end.last_ctx().state(i));
                assert(self.pc.values@[i].state.same_payload(g_end.pc.values@[i].state));
                assert(!self.pc.values@[i].state.is_dirty()) by {
                    assert(i < value_total);
                    assert(i as usize as int == i);
                }
            }
            assert(g_end.pc.extends(&self.pc)) by {
                assert forall|i: int| 0 <= i < g_end.pc.value_count() implies self.pc.value_id(i) == g_end.pc.value_id(i)
                    && (#[trigger] self.pc.state(i)).same_kind(g_end.pc.state(i)) by {
                    assert(self.pc.values@[i].state.same_payload(g_end.pc.values@[i].state));
                }
            }
            c0.lemma_extends_trans(&g_end.pc, &self.pc);
        }
        self.last_run = Ghost(w.run@);
        self.last_edges = Ghost(w.edges@);
        self.last_cut = Ghost(w.cut@);
        self.last_found = Ghost(w.found@);
        self.last_round = Ghost(w.round_of@);
        self.last_finish = Ghost(w.rank@);
        proof {
            assert forall|p: usize, c: usize| #[trigger] w.edges@.contains((p, c)) implies {
                &&& w.rank@.contains_key(p)
                &&& w.rank@.contains_key(c)
                &&& w.rank@[c] < w.rank@[p]
            } by {
                assert(w.reached@.contains(p));
                assert(p < w.involved@.len());
                assert(!w.on_path@[p as int]);
            }
            assert forall|p: usize, c: usize| #[trigger] w.cut@.contains((p, c)) implies {
                &&& w.rank@.contains_key(p)
                &&& w.rank@.contains_key(c)
                &&& w.rank@[p] <= w.rank@[c]
            } by {
                if !w.rank@.contains_key(p) {
                    assert(w.on_path@[c as int]);
                }
                assert(w.reached@.contains(c));
                assert(c < w.involved@.len());
                assert(!w.on_path@[c as int]);
            }
            assert forall|j: int, p: usize|
                0 <= j < w.run@.len() && #[trigger] w.edges@.contains((p, w.run@[j])) && w.round_of@[p] == w.round_of@[w.run@[j]]
                    implies ran_before(w.run@, p, j) by {
                let c = w.run@[j];
                assert(w.upstream@.contains_key(c));
                assert(w.upstream@[c].contains(p));
                let k = choose|k: int| 0 <= k < w.upstream@[c].len() && w.upstream@[c][k] == p;
                assert(ran_before(w.run@, w.upstream@[c][k], j));
            }
            assert forall|l: usize, k: int| w.found@.contains_key(l) && 0 <= k < w.found@[l].len() implies {
                ||| w.edges@.contains((l, #[trigger] w.found@[l][k]))
                ||| w.cut@.contains((l, w.found@[l][k]))
            } by {
                assert(w.kept_or_cut(l, w.found@[l][k]));
            }
            assert forall|l: usize, k: int| w.found@.contains_key(l) && 0 <= k < w.found@[l].len() implies w.run@.contains(#[trigger] w.found@[l][k]) by {
                let c = w.found@[l][k];
                assert(w.kept_or_cut(l, c));
                if w.edges@.contains((l, c)) {
                    assert(w.reached@.contains(c));
                } else {
                    assert(w.reached@.contains(c));
                }
            }
            assert forall|j: int| 0 <= j < w.run@.len() implies w.found@.contains_key(#[trigger] w.run@[j]) by {
                let x = w.run@[j];
                assert(w.done@.contains(x));
                assert(w.reached@.contains(x));
                assert(x < w.involved@.len());
                assert(!w.on_path@[x as int]);
                assert(w.rank@.contains_key(x));
            }
        }
        let r = Some(out);
        proof {
            g_end.lemma_reads_ok_kept(self, w.found@);
            assert forall|l: usize| #[trigger] e0.seeds().contains(l) implies self.last_found().contains_key(l) by {
                assert(w.run@.contains(l));
                let j = choose|j: int| 0 <= j < w.run@.len() && w.run@[j] == l;
                assert(w.found@.contains_key(w.run@[j]));
            }
            assert forall|l: usize| #[trigger] self.last_found().contains_key(l) implies self.walk_record_ok(l, self.last_found()[l]) by {}
            let m = choose|pc: &mut ProcessingContext<T, L>| *pc == c0 && #[trigger] f.ensures((pc,), out) && *final(pc) == c1;
            assert(final(m).same_values(&self.last_entry()));
            assert(r->0 == out);
            assert(exists|pc: &mut ProcessingContext<T, L>|
                    *pc == old(self).context() && #[trigger] f.ensures((pc,), r->0) && final(pc).same_values(
                        &self.last_entry(),
                    ));
        }
        r
    }
}

/// Along a chain of recorded edges the finish order strictly decreases.
proof fn lemma_chain_descends(edges: Set<(usize, usize)>, finish: Map<usize, nat>, chain: Seq<usize>, k: int)
    requires
        forall|p: usize, c: usize|
            #[trigger] edges.contains((p, c)) ==> finish.contains_key(p) && finish.contains_key(c) && finish[c]
                < finish[p],
        0 < k < chain.len(),
        forall|i: int| 0 <= i < k ==> #[trigger] edges.contains((chain[i], chain[i + 1])),
    ensures
        finish[chain[k]] < finish[chain[0]],
    decreases k,
{
    let i = k - 1;
    assert(edges.contains((chain[i], chain[i + 1])));
    assert(i + 1 == k);
    if k > 1 {
        lemma_chain_descends(edges, finish, chain, k - 1);
    }
}

/// Recorded edges never close a cycle, since each goes to a link whose
/// downward walk finished earlier: every cycle of the links found
/// downstream during an event has an edge that was cut.
pub proof fn lemma_cycle_has_cut(edges: Set<(usize, usize)>, finish: Map<usize, nat>, cycle: Seq<usize>)
    requires
        forall|p: usize, c: usize|
            #[trigger] edges.contains((p, c)) ==> finish.contains_key(p) && finish.contains_key(c) && finish[c]
                < finish[p],
        cycle.len() >= 2,
        cycle[0] == cycle.last(),
    ensures
        exists|i: int| 0 <= i < cycle.len() - 1 && !#[trigger] edges.contains((cycle[i], cycle[i + 1])),
{
    if forall|i: int| 0 <= i < cycle.len() - 1 ==> #[trigger] edges.contains((cycle[i], cycle[i + 1])) {
        lemma_chain_descends(edges, finish, cycle, cycle.len() - 1);
    }
}

} // verus!
