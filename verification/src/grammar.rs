//! Loop grammars: the declarative description of one nesting level of a
//! transaction set.

use crate::bytes::{bytes_eq, copy_bytes};
use vstd::prelude::*;
use vstd::string::StringSliceAdditionalSpecFns;

verus! {

/// Mathematical model of a slot.
pub enum SlotModel {
    /// Exactly one segment with this tag.
    Single { tag: Seq<u8> },
    /// At most one segment with this tag.
    Optional { tag: Seq<u8> },
    /// A run of up to `max` segments with this tag; at least one when
    /// `non_empty`.
    Repeated { tag: Seq<u8>, max: nat, non_empty: bool },
    /// Up to `max` repetitions of a nested loop; at least one unless
    /// `optional`.
    Nested { slots: Seq<SlotModel>, optional: bool, max: nat },
}

/// One position of a loop grammar.
#[derive(Debug)]
pub enum Slot {
    /// Exactly one segment with this tag.
    Single { tag: Vec<u8> },
    /// At most one segment with this tag.
    Optional { tag: Vec<u8> },
    /// A run of up to `max` segments with this tag; at least one when
    /// `non_empty`.
    Repeated { tag: Vec<u8>, max: usize, non_empty: bool },
    /// Up to `max` repetitions of a nested loop; at least one unless
    /// `optional`.
    Nested { spec: LoopSpec, optional: bool, max: usize },
}

/// A loop grammar: its slots in the order in which they are matched.
#[derive(Debug)]
pub struct LoopSpec {
    pub slots: Vec<Slot>,
}

/// The model of a slot.
pub open spec fn slot_model(slot: Slot) -> SlotModel
    decreases slot, 0nat,
{
    match slot {
        Slot::Single { tag } => SlotModel::Single { tag: tag@ },
        Slot::Optional { tag } => SlotModel::Optional { tag: tag@ },
        Slot::Repeated { tag, max, non_empty } => SlotModel::Repeated {
            tag: tag@,
            max: max as nat,
            non_empty,
        },
        Slot::Nested { spec, optional, max } => SlotModel::Nested {
            slots: slot_models(spec.slots@, spec.slots@.len()),
            optional,
            max: max as nat,
        },
    }
}

/// The models of the first `n` slots of a sequence.
pub open spec fn slot_models(slots: Seq<Slot>, n: nat) -> Seq<SlotModel>
    decreases slots, n,
{
    if n == 0 || n > slots.len() {
        Seq::empty()
    } else {
        slot_models(slots, (n - 1) as nat).push(slot_model(slots[n - 1]))
    }
}

impl View for Slot {
    type V = SlotModel;

    open spec fn view(&self) -> SlotModel {
        slot_model(*self)
    }
}

impl View for LoopSpec {
    type V = Seq<SlotModel>;

    open spec fn view(&self) -> Seq<SlotModel> {
        slot_models(self.slots@, self.slots@.len())
    }
}

/// The model of a grammar has one slot model per slot, in order.
pub proof fn lemma_slot_models(slots: Seq<Slot>, n: nat)
    requires
        n <= slots.len(),
    ensures
        slot_models(slots, n).len() == n,
        forall|i: int| 0 <= i < n ==> #[trigger] slot_models(slots, n)[i] == slots[i]@,
    decreases n,
{
    if n > 0 {
        lemma_slot_models(slots, (n - 1) as nat);
    }
}

/// The tag that a name stands for: its bytes.
pub open spec fn tag(name: &str) -> Seq<u8> {
    name.spec_bytes()
}

/// The slot for exactly one segment named `name`.
pub open spec fn single_of(name: &str) -> SlotModel {
    SlotModel::Single { tag: tag(name) }
}

/// The slot for at most one segment named `name`.
pub open spec fn optional_of(name: &str) -> SlotModel {
    SlotModel::Optional { tag: tag(name) }
}

/// The slot for a run of up to `max` segments named `name`, which may be
/// empty.
pub open spec fn repeated_of(name: &str, max: nat) -> SlotModel {
    SlotModel::Repeated { tag: tag(name), max, non_empty: false }
}

/// The slot for up to `max` repetitions of the loop `slots`, none of them
/// owed.
pub open spec fn loop_of(slots: Seq<SlotModel>, max: nat) -> SlotModel {
    SlotModel::Nested { slots, optional: true, max }
}

/// The bytes of a tag name.
pub fn tag_bytes(name: &str) -> (r: Vec<u8>)
    ensures
        r@ == tag(name),
{
    copy_bytes(name.as_bytes())
}

impl Slot {
    /// The slot for exactly one segment named `name`.
    pub fn single(name: &str) -> (s: Slot)
        ensures
            s@ == single_of(name),
    {
        Slot::Single { tag: tag_bytes(name) }
    }

    /// The slot for at most one segment named `name`.
    pub fn optional(name: &str) -> (s: Slot)
        ensures
            s@ == optional_of(name),
    {
        Slot::Optional { tag: tag_bytes(name) }
    }

    /// The slot for a run of up to `max` segments named `name`, which may be
    /// empty.
    pub fn repeated(name: &str, max: usize) -> (s: Slot)
        ensures
            s@ == repeated_of(name, max as nat),
    {
        Slot::Repeated { tag: tag_bytes(name), max, non_empty: false }
    }

    /// The slot for a run of one up to `max` segments named `name`.
    pub fn at_least_once(name: &str, max: usize) -> (s: Slot)
        ensures
            s@ == (SlotModel::Repeated { tag: tag(name), max: max as nat, non_empty: true }),
    {
        Slot::Repeated { tag: tag_bytes(name), max, non_empty: true }
    }

    /// The slot for up to `max` repetitions of the loop `spec`, none of them
    /// owed.
    pub fn repeat_loop(spec: LoopSpec, max: usize) -> (s: Slot)
        ensures
            s@ == loop_of(spec@, max as nat),
    {
        Slot::Nested { spec, optional: true, max }
    }

    /// The slot for one up to `max` repetitions of the loop `spec`.
    pub fn mandatory_loop(spec: LoopSpec, max: usize) -> (s: Slot)
        ensures
            s@ == (SlotModel::Nested { slots: spec@, optional: false, max: max as nat }),
    {
        Slot::Nested { spec, optional: false, max }
    }
}

impl LoopSpec {
    /// The grammar without slots.
    pub fn new() -> (g: LoopSpec)
        ensures
            g@ == Seq::<SlotModel>::empty(),
    {
        LoopSpec { slots: Vec::new() }
    }

    /// Adds a slot behind the slots that are there.
    pub fn push(&mut self, slot: Slot)
        ensures
            final(self)@ == old(self)@.push(slot@),
    {
        let ghost before = self.slots@;
        self.slots.push(slot);
        proof {
            lemma_slot_models(before, before.len());
            lemma_slot_models(self.slots@, self.slots@.len());
            assert(self@ =~= old(self)@.push(slot@));
        }
    }
}

impl LoopSpec {
    /// Adds the slots of `other` behind the slots that are there.
    pub fn append(&mut self, other: LoopSpec)
        ensures
            final(self)@ == old(self)@ + other@,
    {
        let ghost before = self.slots@;
        let mut other = other;
        let ghost added = other.slots@;
        self.slots.append(&mut other.slots);
        proof {
            lemma_slot_models(before, before.len());
            lemma_slot_models(added, added.len());
            lemma_slot_models(self.slots@, self.slots@.len());
            assert(self@ =~= slot_models(before, before.len()) + slot_models(added, added.len()));
        }
    }
}

/// Copies a slot.
pub fn copy_slot(slot: &Slot) -> (r: Slot)
    ensures
        r@ == slot@,
    decreases slot, 0nat,
{
    match slot {
        Slot::Single { tag } => Slot::Single { tag: copy_bytes(tag.as_slice()) },
        Slot::Optional { tag } => Slot::Optional { tag: copy_bytes(tag.as_slice()) },
        Slot::Repeated { tag, max, non_empty } => Slot::Repeated {
            tag: copy_bytes(tag.as_slice()),
            max: *max,
            non_empty: *non_empty,
        },
        Slot::Nested { spec, optional, max } => Slot::Nested {
            spec: copy_spec(spec),
            optional: *optional,
            max: *max,
        },
    }
}

/// Copies a grammar.
pub fn copy_spec(spec: &LoopSpec) -> (r: LoopSpec)
    ensures
        r@ == spec@,
    decreases spec, 1nat,
{
    let mut r = LoopSpec::new();
    let mut i: usize = 0;
    proof {
        lemma_slot_models(spec.slots@, spec.slots@.len());
        assert(spec@.take(0) =~= Seq::<SlotModel>::empty());
    }
    while i < spec.slots.len()
        invariant
            i <= spec.slots.len(),
            spec@.len() == spec.slots.len(),
            forall|j: int| 0 <= j < spec.slots.len() ==> spec@[j] == #[trigger] spec.slots[j]@,
            r@ == spec@.take(i as int),
        decreases spec.slots.len() - i,
    {
        r.push(copy_slot(&spec.slots[i]));
        proof {
            assert(spec@.take(i as int).push(spec.slots[i as int]@) =~= spec@.take(i + 1));
        }
        i += 1;
    }
    proof {
        assert(spec@.take(spec.slots.len() as int) =~= spec@);
    }
    r
}

impl Clone for Slot {
    fn clone(&self) -> (r: Self)
        ensures
            r@ == self@,
    {
        copy_slot(self)
    }
}

impl Clone for LoopSpec {
    fn clone(&self) -> (r: Self)
        ensures
            r@ == self@,
    {
        copy_spec(self)
    }
}

/// Compares two slots.
pub fn slot_eq(a: &Slot, b: &Slot) -> (r: bool)
    ensures
        r == (a@ == b@),
    decreases a, 0nat,
{
    match (a, b) {
        (Slot::Single { tag: x }, Slot::Single { tag: y }) => bytes_eq(x.as_slice(), y.as_slice()),
        (Slot::Optional { tag: x }, Slot::Optional { tag: y }) => bytes_eq(
            x.as_slice(),
            y.as_slice(),
        ),
        (
            Slot::Repeated { tag: x, max: m, non_empty: e },
            Slot::Repeated { tag: y, max: n, non_empty: f },
        ) => *m == *n && *e == *f && bytes_eq(x.as_slice(), y.as_slice()),
        (
            Slot::Nested { spec: x, optional: o, max: m },
            Slot::Nested { spec: y, optional: p, max: n },
        ) => *o == *p && *m == *n && grammar_eq(x, y),
        _ => false,
    }
}

/// Compares two grammars: their slots, one by one.
pub fn grammar_eq(a: &LoopSpec, b: &LoopSpec) -> (r: bool)
    ensures
        r == (a@ == b@),
    decreases a, 1nat,
{
    proof {
        lemma_slot_models(a.slots@, a.slots@.len());
        lemma_slot_models(b.slots@, b.slots@.len());
    }
    if a.slots.len() != b.slots.len() {
        return false;
    }
    let mut i: usize = 0;
    while i < a.slots.len()
        invariant
            a.slots.len() == b.slots.len(),
            i <= a.slots.len(),
            a@.len() == a.slots.len(),
            b@.len() == b.slots.len(),
            forall|j: int| 0 <= j < a.slots.len() ==> a@[j] == #[trigger] a.slots[j]@,
            forall|j: int| 0 <= j < b.slots.len() ==> b@[j] == #[trigger] b.slots[j]@,
            forall|j: int| 0 <= j < i ==> a.slots@[j]@ == b.slots@[j]@,
        decreases a.slots.len() - i,
    {
        if !slot_eq(&a.slots[i], &b.slots[i]) {
            return false;
        }
        i += 1;
    }
    proof {
        assert(a@ =~= b@);
    }
    true
}

impl PartialEq for Slot {
    fn eq(&self, other: &Self) -> (r: bool) {
        slot_eq(self, other)
    }
}

impl vstd::std_specs::cmp::PartialEqSpecImpl for Slot {
    open spec fn obeys_eq_spec() -> bool {
        true
    }

    open spec fn eq_spec(&self, other: &Self) -> bool {
        self@ == other@
    }
}

impl Eq for Slot {

}

impl PartialEq for LoopSpec {
    fn eq(&self, other: &Self) -> (r: bool) {
        grammar_eq(self, other)
    }
}

impl vstd::std_specs::cmp::PartialEqSpecImpl for LoopSpec {
    open spec fn obeys_eq_spec() -> bool {
        true
    }

    open spec fn eq_spec(&self, other: &Self) -> bool {
        self@ == other@
    }
}

impl Eq for LoopSpec {

}

} // verus!
