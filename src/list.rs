//! List values and their per-event change log.
use vstd::prelude::*;
use crate::graph::{Id, NULL_ID, IntoValue, Link, ProcessingContext, Value, ValueState};

verus! {

/// One splice: `remove` elements at `offset` were replaced by `add`.
pub struct Change<T> {
    pub offset: usize,
    pub remove: usize,
    pub add: Vec<T>,
}

/// `s` with `s[offset..offset + remove]` replaced by `add`.
pub open spec fn splice_seq<T>(s: Seq<T>, offset: int, remove: int, add: Seq<T>) -> Seq<T> {
    s.subrange(0, offset) + add + s.subrange(offset + remove, s.len() as int)
}

/// Applies the splices of `cs` to `s` in order; `None` if one of them does
/// not fit the sequence it is applied to.
pub open spec fn replay<T>(s: Seq<T>, cs: Seq<Change<T>>) -> Option<Seq<T>>
    decreases cs.len(),
{
    if cs.len() == 0 {
        Some(s)
    } else {
        match replay(s, cs.drop_last()) {
            Some(p) => {
                let c = cs.last();
                if c.offset + c.remove <= p.len() {
                    Some(splice_seq(p, c.offset as int, c.remove as int, c.add@))
                } else {
                    None
                }
            },
            None => None,
        }
    }
}

/// State of a list: its elements, the splices made to it in the current
/// event, and (as ghost state) the elements it had when the event began.
pub struct ListMut_<T> {
    pub value: Vec<T>,
    pub changes: Vec<Change<T>>,
    pub base: Ghost<Seq<T>>,
}

impl<T> ListMut_<T> {
    /// Replaying the change log on the elements of the event's start gives
    /// the current elements.
    pub open spec fn wf(&self) -> bool {
        replay(self.base@, self.changes@) == Some(self.value@)
    }
}


impl<T: Copy> ListMut_<T> {
    /// Replaces `value[offset..offset + remove]` by `add`, logs the splice,
    /// and returns the removed elements.
    pub(crate) fn splice_(&mut self, offset: usize, remove: usize, add: Vec<T>) -> (removed: Vec<T>)
        requires
            old(self).wf(),
            offset + remove <= old(self).value@.len(),
        ensures
            final(self).wf(),
            final(self).value@ == splice_seq(old(self).value@, offset as int, remove as int, add@),
            final(self).changes@ == old(self).changes@.push(Change { offset: offset, remove: remove, add: add }),
            final(self).base == old(self).base,
            removed@ == old(self).value@.subrange(offset as int, offset + remove),
    {
        let n = self.value.len();
        let mut out: Vec<T> = Vec::new();
        let mut removed: Vec<T> = Vec::new();
        let mut i: usize = 0;
        while i < offset
            invariant
                offset + remove <= n == self.value@.len(),
                i <= offset,
                out@ == self.value@.subrange(0, i as int),
            decreases offset - i,
        {
            out.push(self.value[i]);
            i = i + 1;
            proof {
                assert(out@ =~= self.value@.subrange(0, i as int));
            }
        }
        let mut j: usize = 0;
        while j < add.len()
            invariant
                offset + remove <= n == self.value@.len(),
                j <= add@.len(),
                out@ == self.value@.subrange(0, offset as int) + add@.subrange(0, j as int),
            decreases add@.len() - j,
        {
            out.push(add[j]);
            j = j + 1;
            proof {
                assert(out@ =~= self.value@.subrange(0, offset as int) + add@.subrange(0, j as int));
            }
        }
        i = offset;
        while i < offset + remove
            invariant
                offset + remove <= n == self.value@.len(),
                offset <= i <= offset + remove,
                removed@ == self.value@.subrange(offset as int, i as int),
            decreases offset + remove - i,
        {
            removed.push(self.value[i]);
            i = i + 1;
            proof {
                assert(removed@ =~= self.value@.subrange(offset as int, i as int));
            }
        }
        proof {
            assert(add@.subrange(0, add@.len() as int) =~= add@);
        }
        i = offset + remove;
        while i < n
            invariant
                offset + remove <= n == self.value@.len(),
                offset + remove <= i <= n,
                out@ == self.value@.subrange(0, offset as int) + add@ + self.value@.subrange(
                    offset + remove,
                    i as int,
                ),
            decreases n - i,
        {
            out.push(self.value[i]);
            i = i + 1;
            proof {
                assert(out@ =~= self.value@.subrange(0, offset as int) + add@ + self.value@.subrange(
                    offset + remove,
                    i as int,
                ));
            }
        }
        let ghost old_changes = self.changes@;
        self.value = out;
        self.changes.push(Change { offset: offset, remove: remove, add: add });
        proof {
            assert(self.changes@.drop_last() =~= old_changes);
        }
        removed
    }
}


/// A list value: an ordered sequence with a per-event log of splices.
#[derive(Clone, Copy)]
pub struct List {
    id: Id,
    index: usize,
}

/// A weak handle to a `List`.
#[derive(Clone, Copy)]
pub struct WeakList {
    id: Id,
    index: usize,
}

impl List {
    pub closed spec fn spec_id(&self) -> Id {
        self.id
    }

    pub closed spec fn spec_index(&self) -> usize {
        self.index
    }

    /// This handle names a list of `pc`.
    pub open spec fn valid_in<T, L>(&self, pc: &ProcessingContext<T, L>) -> bool {
        &&& pc.valid_value(self.spec_index() as int)
        &&& pc.value_id(self.spec_index() as int) == self.spec_id()
        &&& pc.state(self.spec_index() as int) is List
    }

    /// The current elements.
    pub open spec fn values_in<T, L>(&self, pc: &ProcessingContext<T, L>) -> Seq<T> {
        pc.state(self.spec_index() as int)->List_0.value@
    }

    /// The splices made in the current event.
    pub open spec fn changes_in<T, L>(&self, pc: &ProcessingContext<T, L>) -> Seq<Change<T>> {
        pc.state(self.spec_index() as int)->List_0.changes@
    }

    /// The elements at the start of the current event.
    pub open spec fn base_in<T, L>(&self, pc: &ProcessingContext<T, L>) -> Seq<T> {
        pc.state(self.spec_index() as int)->List_0.base@
    }

    /// `next` is `prev` after the splice `(offset, remove, add)` of this
    /// list, one that removes or adds something.
    pub open spec fn spliced<T, L>(
        &self,
        prev: &ProcessingContext<T, L>,
        next: &ProcessingContext<T, L>,
        offset: usize,
        remove: usize,
        add: Seq<T>,
    ) -> bool {
        &&& self.valid_in(next)
        &&& self.values_in(next) == splice_seq(self.values_in(prev), offset as int, remove as int, add)
        &&& self.changes_in(next).len() == self.changes_in(prev).len() + 1
        &&& self.changes_in(next).drop_last() == self.changes_in(prev)
        &&& self.changes_in(next).last().offset == offset
        &&& self.changes_in(next).last().remove == remove
        &&& self.changes_in(next).last().add@ == add
        &&& self.base_in(next) == self.base_in(prev)
        &&& prev.write_effect(next, self.spec_index() as int, self.changes_in(prev).len() == 0)
    }

    /// Creates a list holding `initial`.
    pub fn new<T, L>(pc: &mut ProcessingContext<T, L>, initial: Vec<T>) -> (r: List)
        requires
            old(pc).wf(),
            old(pc).id_room(),
        ensures
            final(pc).wf(),
            old(pc).grows_to(final(pc)),
            r.valid_in(final(pc)),
            r.spec_id() == old(pc).next_id(),
            r.spec_id() != NULL_ID,
            final(pc).next_id() == old(pc).next_id() + 1,
            r.spec_index() == old(pc).value_count(),
            r.values_in(final(pc)) == initial@,
            r.changes_in(final(pc)).len() == 0,
            final(pc).downstream(r.spec_index() as int) == Seq::<usize>::empty(),
            final(pc).value_count() == old(pc).value_count() + 1,
            final(pc).link_count() == old(pc).link_count(),
            old(pc).keeps_values(final(pc), -1),
            old(pc).same_schedule(final(pc)),
    {
        let ghost start = initial@;
        let state = ListMut_ { value: initial, changes: Vec::new(), base: Ghost(start) };
        let (index, id) = pc.add_value(ValueState::List(state));
        List { id: id, index: index }
    }

    pub fn id(&self) -> (r: Id)
        ensures
            r == self.spec_id(),
    {
        self.id
    }

    /// Registers `link` downstream of this list: a change of the list
    /// schedules the link.
    pub fn add_next<T, L>(&self, pc: &mut ProcessingContext<T, L>, link: &Link)
        requires
            old(pc).wf(),
            self.valid_in(old(pc)),
            old(pc).valid_link(link.spec_index() as int),
        ensures
            final(pc).wf(),
            old(pc).grows_to(final(pc)),
            final(pc).downstream(self.spec_index() as int) == old(pc).downstream(self.spec_index() as int).push(
                link.spec_index(),
            ),
            final(pc).state(self.spec_index() as int) == old(pc).state(self.spec_index() as int),
            old(pc).keeps_values(final(pc), self.spec_index() as int),
            old(pc).same_schedule(final(pc)),
    {
        pc.add_downstream(self.index, link.index());
    }

    pub fn weak(&self) -> (r: WeakList)
        ensures
            r.spec_id() == self.spec_id(),
            r.spec_index() == self.spec_index(),
    {
        WeakList { id: self.id, index: self.index }
    }

    /// The current elements.
    pub fn borrow_values<'a, T, L>(&self, pc: &'a ProcessingContext<T, L>) -> (r: &'a Vec<T>)
        requires
            self.valid_in(pc),
        ensures
            r@ == self.values_in(pc),
    {
        match pc.state_ref(self.index) {
            ValueState::List(l) => &l.value,
            _ => vstd::pervasive::unreached(),
        }
    }

    /// The splices made in the current event; empty between events.
    pub fn borrow_changes<'a, T, L>(&self, pc: &'a ProcessingContext<T, L>) -> (r: &'a Vec<Change<T>>)
        requires
            self.valid_in(pc),
        ensures
            r@ == self.changes_in(pc),
    {
        match pc.state_ref(self.index) {
            ValueState::List(l) => &l.changes,
            _ => vstd::pervasive::unreached(),
        }
    }
}

impl IntoValue for List {
    fn into_value(&self) -> Value {
        Value::of(self.id, self.index)
    }
}

impl WeakList {
    pub closed spec fn spec_id(&self) -> Id {
        self.id
    }

    pub closed spec fn spec_index(&self) -> usize {
        self.index
    }

    /// The strong handle, if this handle names a list of `pc`.
    pub fn upgrade<T, L>(&self, pc: &ProcessingContext<T, L>) -> (r: Option<List>)
        ensures
            r is Some <==> {
                &&& pc.valid_value(self.spec_index() as int)
                &&& pc.value_id(self.spec_index() as int) == self.spec_id()
                &&& pc.state(self.spec_index() as int) is List
            },
            r matches Some(p) ==> p.spec_id() == self.spec_id() && p.spec_index() == self.spec_index()
                && p.valid_in(pc),
    {
        if self.index < pc.value_total() && pc.id_of_value(self.index) == self.id {
            match pc.state_ref(self.index) {
                ValueState::List(_) => Some(List { id: self.id, index: self.index }),
                _ => None,
            }
        } else {
            None
        }
    }
}


impl List {
    /// Replaces `remove` elements at `offset` by `add`, and returns the
    /// removed elements. A splice that neither removes nor adds changes
    /// nothing; any other is logged, and the first of the event enrols the
    /// list for cleanup and schedules its downstream links.
    pub fn splice<T: Copy, L>(
        &self,
        pc: &mut ProcessingContext<T, L>,
        offset: usize,
        remove: usize,
        add: Vec<T>,
    ) -> (removed: Vec<T>)
        requires
            old(pc).wf(),
            self.valid_in(old(pc)),
            offset + remove <= self.values_in(old(pc)).len(),
        ensures
            final(pc).wf(),
            old(pc).grows_to(final(pc)),
            self.valid_in(final(pc)),
            removed@ == self.values_in(old(pc)).subrange(offset as int, offset + remove),
            remove == 0 && add@.len() == 0 ==> *final(pc) == *old(pc),
            !(remove == 0 && add@.len() == 0) ==> self.spliced(old(pc), final(pc), offset, remove, add@),
    {
        let ghost add_view = add@;
        let removed = pc.splice_list(self.index, offset, remove, add);
        proof {
            old(pc).lemma_grows_to(pc);
            if !(remove == 0 && add_view.len() == 0) {
                assert(self.changes_in(pc).drop_last() =~= self.changes_in(old(pc)));
            }
        }
        removed
    }

    /// Appends `value`.
    pub fn push<T: Copy, L>(&self, pc: &mut ProcessingContext<T, L>, value: T)
        requires
            old(pc).wf(),
            self.valid_in(old(pc)),
        ensures
            final(pc).wf(),
            old(pc).grows_to(final(pc)),
            self.values_in(final(pc)) == self.values_in(old(pc)).push(value),
            self.spliced(old(pc), final(pc), self.values_in(old(pc)).len() as usize, 0, seq![value]),
    {
        let len = self.borrow_values(pc).len();
        let add = vec![value];
        proof {
            assert(add@ =~= seq![value]);
        }
        self.splice(pc, len, 0, add);
        proof {
            assert(self.values_in(pc) =~= self.values_in(old(pc)).push(value));
        }
    }

    /// Removes the last element and returns it; `None`, and no change, if
    /// the list is empty.
    pub fn pop<T: Copy, L>(&self, pc: &mut ProcessingContext<T, L>) -> (r: Option<T>)
        requires
            old(pc).wf(),
            self.valid_in(old(pc)),
        ensures
            final(pc).wf(),
            old(pc).grows_to(final(pc)),
            self.values_in(old(pc)).len() == 0 ==> r is None && *final(pc) == *old(pc),
            self.values_in(old(pc)).len() > 0 ==> {
                &&& r == Some(self.values_in(old(pc)).last())
                &&& self.values_in(final(pc)) == self.values_in(old(pc)).drop_last()
                &&& self.spliced(
                    old(pc),
                    final(pc),
                    (self.values_in(old(pc)).len() - 1) as usize,
                    1,
                    Seq::<T>::empty(),
                )
            },
    {
        let len = self.borrow_values(pc).len();
        if len == 0 {
            proof {
                pc.lemma_grows_to_refl();
            }
            return None;
        }
        let removed = self.splice(pc, len - 1, 1, Vec::new());
        proof {
            assert(self.values_in(pc) =~= self.values_in(old(pc)).drop_last());
        }
        Some(removed[0])
    }

    /// Appends `values`.
    pub fn extend<T: Copy, L>(&self, pc: &mut ProcessingContext<T, L>, values: Vec<T>)
        requires
            old(pc).wf(),
            self.valid_in(old(pc)),
        ensures
            final(pc).wf(),
            old(pc).grows_to(final(pc)),
            values@.len() == 0 ==> *final(pc) == *old(pc),
            values@.len() > 0 ==> {
                &&& self.values_in(final(pc)) == self.values_in(old(pc)) + values@
                &&& self.spliced(old(pc), final(pc), self.values_in(old(pc)).len() as usize, 0, values@)
            },
    {
        let len = self.borrow_values(pc).len();
        let ghost added = values@;
        self.splice(pc, len, 0, values);
        proof {
            if added.len() > 0 {
                assert(self.values_in(pc) =~= self.values_in(old(pc)) + added);
            }
        }
    }

    /// Removes every element.
    pub fn clear<T: Copy, L>(&self, pc: &mut ProcessingContext<T, L>)
        requires
            old(pc).wf(),
            self.valid_in(old(pc)),
        ensures
            final(pc).wf(),
            old(pc).grows_to(final(pc)),
            self.values_in(old(pc)).len() == 0 ==> *final(pc) == *old(pc),
            self.values_in(old(pc)).len() > 0 ==> {
                &&& self.values_in(final(pc)) == Seq::<T>::empty()
                &&& self.spliced(
                    old(pc),
                    final(pc),
                    0,
                    self.values_in(old(pc)).len() as usize,
                    Seq::<T>::empty(),
                )
            },
    {
        let len = self.borrow_values(pc).len();
        self.splice(pc, 0, len, Vec::new());
        proof {
            if len > 0 {
                assert(self.values_in(pc) =~= Seq::<T>::empty());
            }
        }
    }

    /// Shortens the list to `len` elements if it is longer.
    pub fn truncate<T: Copy, L>(&self, pc: &mut ProcessingContext<T, L>, len: usize)
        requires
            old(pc).wf(),
            self.valid_in(old(pc)),
        ensures
            final(pc).wf(),
            old(pc).grows_to(final(pc)),
            self.values_in(old(pc)).len() <= len ==> *final(pc) == *old(pc),
            self.values_in(old(pc)).len() > len ==> {
                &&& self.values_in(final(pc)) == self.values_in(old(pc)).subrange(0, len as int)
                &&& self.spliced(
                    old(pc),
                    final(pc),
                    len,
                    (self.values_in(old(pc)).len() - len) as usize,
                    Seq::<T>::empty(),
                )
            },
    {
        let current = self.borrow_values(pc).len();
        proof {
            pc.lemma_grows_to_refl();
        }
        if current > len {
            self.splice(pc, len, current - len, Vec::new());
            proof {
                assert(self.values_in(pc) =~= self.values_in(old(pc)).subrange(0, len as int));
            }
        }
    }
}


/// Replaying the change log of a list on its elements at the start of the
/// event gives its current elements; with an empty log (as between events)
/// the two are the same.
pub proof fn lemma_changes_replay<T, L>(list: List, pc: ProcessingContext<T, L>)
    requires
        pc.wf(),
        list.valid_in(&pc),
    ensures
        replay(list.base_in(&pc), list.changes_in(&pc)) == Some(list.values_in(&pc)),
        list.changes_in(&pc).len() == 0 ==> list.base_in(&pc) == list.values_in(&pc),
{
    pc.lemma_state_wf(list.spec_index() as int);
}

} // verus!
