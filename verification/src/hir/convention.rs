//! Laws of the calling convention, and what a function without a fault is.

use vstd::prelude::*;
use crate::hir::abi::{outgoing, stack_end, standard_place, ArgumentView, LocationView, MemoryView, TargetView, Win64ArgumentClass, Win64ResultLocation};
use crate::hir::arguments::passed_in;
use crate::hir::function::{partition, HirView, MemoryObjectKind};
use crate::hir::register::{Gpr, Register, SliceView};
use crate::hir::{CallSiteId, MemoryObjectId, OperationId, ValueId};

verus! {

// ─── Places ─────────────────────────────────────────────────────────────────

/// Every argument has eight bytes of its own on the stack, at eight times its position, and the
/// first four are in registers instead: RCX, RDX, R8 and R9, or the vector register of the same
/// number.
pub proof fn law_places(position: u16, class: Win64ArgumentClass)
    ensures
        position >= 4 ==> (standard_place(position, class) matches Some(LocationView::Stack(offset)) && offset == 8
            * position),
        position < 4 && class == Win64ArgumentClass::FloatingPoint ==> standard_place(position, class) == Some(
            LocationView::Register(SliceView { register: Register::Vector(position as u8), bit_offset: 0, bit_width: 128 }),
        ),
        position < 4 && (class == Win64ArgumentClass::Integer || class == Win64ArgumentClass::AggregateByReference)
            ==> standard_place(position, class) == Some(
            LocationView::Register(
                SliceView { register: Register::Gpr(passed_in(position as int)), bit_offset: 0, bit_width: 64 },
            ),
        ),
        position < 4 && class == Win64ArgumentClass::Unknown ==> standard_place(position, class) is None,
{
}

/// No two arguments are in one place.
pub proof fn law_places_are_apart(p: u16, q: u16, c: Win64ArgumentClass, d: Win64ArgumentClass)
    requires
        p != q,
    ensures
        match (standard_place(p, c), standard_place(q, d)) {
            (Some(LocationView::Stack(a)), Some(LocationView::Stack(b))) => a + 8 <= b || b + 8 <= a,
            (Some(LocationView::Register(s)), Some(LocationView::Register(t))) => s.register != t.register,
            _ => true,
        },
{
    law_places(p, c);
    law_places(q, d);
}

/// Some place of the arguments ends at `end`.
pub open spec fn ends_at(arguments: Seq<ArgumentView>, n: int, end: int) -> bool {
    exists|i: int, k: int|
        0 <= i < n && 0 <= k < arguments[i].locations.len() && ((#[trigger] arguments[i].locations[k]) matches LocationView::Stack(
            offset,
        ) && offset + 8 == end)
}

proof fn lemma_stack_end(places: Seq<LocationView>, n: int, least: int)
    requires
        0 <= n <= places.len(),
    ensures
        stack_end(places, n, least) >= least,
        forall|k: int|
            0 <= k < n ==> ((#[trigger] places[k]) matches LocationView::Stack(offset) ==> offset + 8 <= stack_end(
                places,
                n,
                least,
            )),
        stack_end(places, n, least) == least || exists|k: int|
            0 <= k < n && ((#[trigger] places[k]) matches LocationView::Stack(offset) && offset + 8 == stack_end(
                places,
                n,
                least,
            )),
    decreases n,
{
    if n > 0 {
        lemma_stack_end(places, n - 1, least);
        let done = stack_end(places, n - 1, least);
        let all = stack_end(places, n, least);
        if all != least {
            if all == done {
                let k = choose|k: int|
                    0 <= k < n - 1 && ((#[trigger] places[k]) matches LocationView::Stack(offset) && offset + 8 == done);
                assert(places[k] matches LocationView::Stack(offset) && offset + 8 == all);
            } else {
                assert(places[n - 1] matches LocationView::Stack(offset) && offset + 8 == all);
            }
        }
    }
}

/// A call asks for as much stack as its last stack argument needs, and no less than the home
/// space.
pub proof fn law_outgoing_is_the_end(arguments: Seq<ArgumentView>, n: int)
    requires
        0 <= n <= arguments.len(),
    ensures
        outgoing(arguments, n) >= 32,
        forall|i: int, k: int|
            0 <= i < n && 0 <= k < arguments[i].locations.len() ==> ((#[trigger] arguments[i].locations[k]) matches LocationView::Stack(
                offset,
            ) ==> offset + 8 <= outgoing(arguments, n)),
        outgoing(arguments, n) == 32 || ends_at(arguments, n, outgoing(arguments, n)),
    decreases n,
{
    if n > 0 {
        law_outgoing_is_the_end(arguments, n - 1);
        let places = arguments[n - 1].locations;
        let less = outgoing(arguments, n - 1);
        lemma_stack_end(places, places.len() as int, less);
        let all = outgoing(arguments, n);
        assert forall|i: int, k: int| 0 <= i < n && 0 <= k < arguments[i].locations.len() implies ((
        #[trigger] arguments[i].locations[k]) matches LocationView::Stack(offset) ==> offset + 8 <= all) by {
            if i == n - 1 {
                assert(places[k] == arguments[i].locations[k]);
            }
        }
        if all != 32 {
            if all == less {
                let (i, k) = choose|i: int, k: int|
                    0 <= i < n - 1 && 0 <= k < arguments[i].locations.len() && ((
                    #[trigger] arguments[i].locations[k]) matches LocationView::Stack(offset) && offset + 8 == less);
                assert(arguments[i].locations[k] matches LocationView::Stack(offset) && offset + 8 == all);
            } else {
                let k = choose|k: int|
                    0 <= k < places.len() && ((#[trigger] places[k]) matches LocationView::Stack(offset) && offset + 8
                        == all);
                assert(arguments[n - 1].locations[k] matches LocationView::Stack(offset) && offset + 8 == all);
            }
            assert(ends_at(arguments, n, all));
        }
    }
}

/// Objects of different kinds are in different partitions.
pub proof fn law_partitions(a: MemoryObjectKind, b: MemoryObjectKind)
    ensures
        partition(a) == partition(b) <==> {
            ||| a is StackSlot && b is StackSlot
            ||| a is Global && b is Global
            ||| a is ReadOnlyData && b is ReadOnlyData
            ||| a is ImportSlot && b is ImportSlot
            ||| a is Tls && b is Tls
            ||| a is Heap && b is Heap
            ||| a is Unknown && b is Unknown
        },
{
}

// ─── Faults ─────────────────────────────────────────────────────────────────

/// The value exists.
pub open spec fn is_value(h: HirView, v: ValueId) -> bool {
    v.0 < h.values.len()
}

proof fn lemma_refs(h: HirView, refs: Seq<ValueId>, i: int)
    requires
        0 <= i <= refs.len(),
        h.refs_fault(refs, i) is None,
    ensures
        forall|k: int| i <= k < refs.len() ==> is_value(h, #[trigger] refs[k]),
    decreases refs.len() - i,
{
    if i < refs.len() {
        lemma_refs(h, refs, i + 1);
    }
}

proof fn lemma_values(h: HirView, i: int)
    requires
        0 <= i <= h.values.len(),
        h.values_fault(i) is None,
    ensures
        forall|k: int|
            i <= k < h.values.len() ==> (#[trigger] h.values[k]).id == ValueId(k as u32) && h.values[k].bit_width
                != Some(0u16),
    decreases h.values.len() - i,
{
    if i < h.values.len() {
        lemma_values(h, i + 1);
    }
}

/// Everything that the operation refers to exists.
pub open spec fn operation_stands(h: HirView, k: int) -> bool {
    let o = h.operations[k];
    &&& o.id == OperationId(k as u32)
    &&& forall|j: int| 0 <= j < o.inputs.len() ==> is_value(h, #[trigger] o.inputs[j])
    &&& o.output matches Some(v) ==> is_value(h, v)
}

proof fn lemma_operations(h: HirView, i: int)
    requires
        0 <= i <= h.operations.len(),
        h.operations_fault(i) is None,
    ensures
        forall|k: int| i <= k < h.operations.len() ==> #[trigger] operation_stands(h, k),
    decreases h.operations.len() - i,
{
    if i < h.operations.len() {
        lemma_refs(h, h.operations[i].inputs, 0);
        assert(operation_stands(h, i));
        lemma_operations(h, i + 1);
    }
}

/// The argument has a value, and every place on the stack is a slot above the home space.
pub open spec fn argument_stands(h: HirView, a: ArgumentView) -> bool {
    &&& is_value(h, a.value)
    &&& a.locations.len() > 0
    &&& forall|k: int|
        0 <= k < a.locations.len() ==> ((#[trigger] a.locations[k]) matches LocationView::Stack(offset) ==> offset >= 32
            && offset % 8 == 0)
}

proof fn lemma_places(h: HirView, call: CallSiteId, position: u16, places: Seq<LocationView>, i: int)
    requires
        0 <= i <= places.len(),
        h.places_fault(call, position, places, i) is None,
    ensures
        forall|k: int|
            i <= k < places.len() ==> ((#[trigger] places[k]) matches LocationView::Stack(offset) ==> offset >= 32
                && offset % 8 == 0),
    decreases places.len() - i,
{
    if i < places.len() {
        lemma_places(h, call, position, places, i + 1);
    }
}

proof fn lemma_arguments(h: HirView, call: CallSiteId, arguments: Seq<ArgumentView>, i: int)
    requires
        0 <= i <= arguments.len(),
        h.arguments_fault(call, arguments, i) is None,
    ensures
        forall|k: int| i <= k < arguments.len() ==> argument_stands(h, #[trigger] arguments[k]),
    decreases arguments.len() - i,
{
    if i < arguments.len() {
        lemma_places(h, call, arguments[i].position, arguments[i].locations, 0);
        lemma_arguments(h, call, arguments, i + 1);
    }
}

/// Everything that the call refers to exists.
pub open spec fn call_stands(h: HirView, k: int) -> bool {
    let c = h.calls[k];
    &&& forall|j: int| 0 <= j < c.arguments.len() ==> argument_stands(h, #[trigger] c.arguments[j])
    &&& c.target matches TargetView::Indirect { target, .. } ==> is_value(h, target)
    &&& c.result matches Some(r) ==> is_value(h, r.value) && (r.location matches Win64ResultLocation::Indirect {
        storage_pointer,
        ..
    } ==> is_value(h, storage_pointer))
    &&& c.clobbers.memory matches MemoryView::Objects(v) ==> forall|j: int|
        0 <= j < v.len() ==> (#[trigger] v[j]).0 < h.objects.len()
}

proof fn lemma_object_refs(h: HirView, refs: Seq<MemoryObjectId>, i: int)
    requires
        0 <= i <= refs.len(),
        h.object_refs_fault(refs, i) is None,
    ensures
        forall|k: int| i <= k < refs.len() ==> (#[trigger] refs[k]).0 < h.objects.len(),
    decreases refs.len() - i,
{
    if i < refs.len() {
        lemma_object_refs(h, refs, i + 1);
    }
}

proof fn lemma_calls(h: HirView, i: int)
    requires
        0 <= i <= h.calls.len(),
        h.calls_fault(i) is None,
    ensures
        forall|k: int| i <= k < h.calls.len() ==> #[trigger] call_stands(h, k),
    decreases h.calls.len() - i,
{
    if i < h.calls.len() {
        lemma_arguments(h, CallSiteId(i as u32), h.calls[i].arguments, 0);
        if let MemoryView::Objects(v) = h.calls[i].clobbers.memory {
            lemma_object_refs(h, v, 0);
        }
        assert(call_stands(h, i));
        lemma_calls(h, i + 1);
    }
}

/// In a function without a fault, every value and every operation has the id of its position, and
/// whatever is referred to exists.
pub proof fn law_faultless(h: HirView)
    requires
        h.fault() is None,
    ensures
        forall|k: int|
            0 <= k < h.values.len() ==> (#[trigger] h.values[k]).id == ValueId(k as u32) && h.values[k].bit_width
                != Some(0u16),
        forall|k: int| 0 <= k < h.operations.len() ==> #[trigger] operation_stands(h, k),
        forall|b: u32| #[trigger] h.exits.dom().contains(b) ==> is_value(h, h.exits[b]),
        forall|k: int| 0 <= k < h.calls.len() ==> #[trigger] call_stands(h, k),
{
    lemma_values(h, 0);
    lemma_operations(h, 0);
    lemma_calls(h, 0);
    assert forall|b: u32| #[trigger] h.exits.dom().contains(b) implies is_value(h, h.exits[b]) by {
        assert(!h.exit_dangles(b));
    }
}

} // verus!
