//! Gates: relay groups that copy a bus, or a constant, onto another bus.

use vstd::prelude::*;
use crate::builder::{switch_name_of, BuilderModel, CircuitBuilder, SubcircuitBuilder};
use crate::circuit::{bit_is_set, bit_of};
use crate::handle::{Bus, Handle, HandleView};
use crate::labels::NodeId;

verus! {

/// The read line: the handle (S, 5), the step line that gates read in.
pub open spec fn read_line() -> HandleView {
    (seq!['S'], Some(5i8), None)
}

fn read_line_handle() -> (r: Handle)
    ensures
        r@ == read_line(),
{
    proof {
        reveal_strlit("S");
        assert("S"@ =~= seq!['S']);
    }
    Handle::new("S", Some(5), None)
}

/// How `gate_const` wires the indices `first ..= upto` onto `m`, in order:
/// for each index whose bit in `k` is set, the coil at that index of `to` (on
/// a new node if the name is new) and a switch of family `family` whose pole
/// is `line`, whose normally-open terminal is that coil's node and whose
/// normally-closed terminal is a new node; nothing for a zero bit.
pub open spec fn gate_const_steps(
    m: BuilderModel,
    k: i8,
    family: HandleView,
    to: &Bus,
    line: NodeId,
    first: int,
    upto: int,
) -> BuilderModel
    decreases upto - first + 1,
{
    if upto < first {
        m
    } else {
        let prev = gate_const_steps(m, k, family, to, line, first, upto - 1);
        if bit_of(k as i32, upto as nat) {
            let (with_target, n) = prev.with_coil(to.member(upto), None);
            with_target.with_switch(family, (Some(line), Some(n), None)).0
        } else {
            prev
        }
    }
}

/// The builder contents after a gate of the constant `k` onto bus `to` is
/// added to `before`: the coil `gate`, the read line, then the wiring of
/// [`gate_const_steps`] from the read line, with switches of the family of
/// `gate`.
pub open spec fn gate_const_model(
    before: BuilderModel,
    k: i8,
    gate: HandleView,
    to: &Bus,
    first: int,
    last: int,
) -> BuilderModel {
    let (with_gate, _) = before.with_coil(gate, None);
    let (with_line, line) = with_gate.labelled(read_line());
    gate_const_steps(with_line, k, switch_name_of(gate), to, line, first, last)
}

/// Adds to `builder` a gate of the constant `k` onto `to`: see
/// [`gate_const_model`].
pub fn gate_const_into(builder: &mut SubcircuitBuilder, k: i8, gate: &Handle, to: &Bus, first: i8, last: i8)
    requires
        first > last || (0 <= first && last < 8),
    ensures
        mut_ref_future(final(builder).cb) == mut_ref_future(old(builder).cb),
        final(builder).model().wf(),
        final(builder).model() == gate_const_model(old(builder).model(), k, gate@, to, first as int, last as int),
{
    builder.add_coil(gate.duplicate(), None);
    let s5 = builder.label(read_line_handle());
    let ghost start = builder.model();
    let family = CircuitBuilder::coil_to_switch_name(gate);
    let mut index: i16 = first as i16;
    while index <= last as i16
        invariant
            first > last || (0 <= first && last < 8),
            first as i16 <= index,
            first > last || index <= last as i16 + 1,
            first > last ==> index == first as i16,
            family@ == switch_name_of(gate@),
            mut_ref_future(builder.cb) == mut_ref_future(old(builder).cb),
            start == old(builder).model().with_coil(gate@, None).0.labelled(read_line()).0,
            s5 == old(builder).model().with_coil(gate@, None).0.labelled(read_line()).1,
            builder.model().wf(),
            builder.model().labels.contains_key(read_line()),
            builder.model().labels[read_line()] == s5,
            builder.model() == gate_const_steps(start, k, family@, to, s5, first as int, index - 1),
        decreases last as i16 + 1 - index,
    {
        if bit_is_set(k as i32, index as u32) {
            let member = to.index(index as i8);
            assert(member@ == to.member(index as int));
            let coil_node = builder.add_coil(member, None);
            builder.add_switch(family.duplicate(), (Some(s5), Some(coil_node), None));
        }
        index = index + 1;
    }
}

/// A sub-circuit that gates the constant `k` onto bus `to`: see
/// [`gate_const_model`].
pub fn gate_const(k: i8, gate: Handle, to: Bus, first: i8, last: i8) -> (r: impl FnOnce(SubcircuitBuilder))
    requires
        first > last || (0 <= first && last < 8),
    ensures
        forall|scb: SubcircuitBuilder| r.requires((scb,)),
        forall|scb: SubcircuitBuilder, u: ()|
            #[trigger] r.ensures((scb,), u) ==> mut_ref_future(scb.cb).model() == gate_const_model(
                scb.model(),
                k,
                gate@,
                &to,
                first as int,
                last as int,
            ),
{
    move |builder: SubcircuitBuilder|
        ensures
            mut_ref_future(builder.cb).model() == gate_const_model(
                builder.model(),
                k,
                gate@,
                &to,
                first as int,
                last as int,
            ),
        {
            let mut b = builder;
            gate_const_into(&mut b, k, &gate, &to, first, last);
            assert(has_resolved(b.cb));
        }
}

/// How `gate` wires the indices `first ..= upto` onto `m`, in order: for each
/// index, a switch of the family of `from` at that index whose pole is
/// `line` and whose two other terminals are new nodes; the coil at that index
/// of `to` (on a new node if the name is new); and a switch of family
/// `family` whose pole is the normally-open terminal of the first switch,
/// whose normally-open terminal is that coil's node and whose normally-closed
/// terminal is a new node.
pub open spec fn gate_steps(
    m: BuilderModel,
    from: &Bus,
    family: HandleView,
    to: &Bus,
    line: NodeId,
    first: int,
    upto: int,
) -> BuilderModel
    decreases upto - first + 1,
{
    if upto < first {
        m
    } else {
        let prev = gate_steps(m, from, family, to, line, first, upto - 1);
        let (with_source, terminals) = prev.with_switch(switch_name_of(from.member(upto)), (Some(line), None, None));
        let (with_target, n) = with_source.with_coil(to.member(upto), None);
        with_target.with_switch(family, (Some(terminals.1), Some(n), None)).0
    }
}

/// The builder contents after a gate from bus `from` onto bus `to` is added
/// to `before`: the coil `gate`, the read line, then the wiring of
/// [`gate_steps`] from the read line, with gate switches of the family of
/// `gate`.
pub open spec fn gate_model(
    before: BuilderModel,
    from: &Bus,
    gate: HandleView,
    to: &Bus,
    first: int,
    last: int,
) -> BuilderModel {
    let (with_gate, _) = before.with_coil(gate, None);
    let (with_line, line) = with_gate.labelled(read_line());
    gate_steps(with_line, from, switch_name_of(gate), to, line, first, last)
}

/// Adds to `builder` a gate from bus `from` onto bus `to`: see
/// [`gate_model`].
pub fn gate_into(builder: &mut SubcircuitBuilder, from: &Bus, gate: &Handle, to: &Bus, first: i8, last: i8)
    ensures
        mut_ref_future(final(builder).cb) == mut_ref_future(old(builder).cb),
        final(builder).model().wf(),
        final(builder).model() == gate_model(old(builder).model(), from, gate@, to, first as int, last as int),
{
    builder.add_coil(gate.duplicate(), None);
    let s5 = builder.label(read_line_handle());
    let ghost start = builder.model();
    let family = CircuitBuilder::coil_to_switch_name(gate);
    let mut index: i16 = first as i16;
    while index <= last as i16
        invariant
            first as i16 <= index,
            first > last || index <= last as i16 + 1,
            first > last ==> index == first as i16,
            family@ == switch_name_of(gate@),
            mut_ref_future(builder.cb) == mut_ref_future(old(builder).cb),
            start == old(builder).model().with_coil(gate@, None).0.labelled(read_line()).0,
            s5 == old(builder).model().with_coil(gate@, None).0.labelled(read_line()).1,
            builder.model().wf(),
            builder.model().labels.contains_key(read_line()),
            builder.model().labels[read_line()] == s5,
            builder.model() == gate_steps(start, from, family@, to, s5, first as int, index - 1),
        decreases last as i16 + 1 - index,
    {
        let source = from.index(index as i8);
        assert(source@ == from.member(index as int));
        let (_, relay, _) = builder.add_switch(CircuitBuilder::coil_to_switch_name(&source), (Some(s5), None, None));
        let member = to.index(index as i8);
        assert(member@ == to.member(index as int));
        let coil_node = builder.add_coil(member, None);
        builder.add_switch(family.duplicate(), (Some(relay), Some(coil_node), None));
        index = index + 1;
    }
}

/// A sub-circuit that gates bus `from` onto bus `to`: see [`gate_model`].
pub fn gate(from: Bus, enable: Handle, to: Bus, first: i8, last: i8) -> (r: impl FnOnce(SubcircuitBuilder))
    ensures
        forall|scb: SubcircuitBuilder| r.requires((scb,)),
        forall|scb: SubcircuitBuilder, u: ()|
            #[trigger] r.ensures((scb,), u) ==> mut_ref_future(scb.cb).model() == gate_model(
                scb.model(),
                &from,
                enable@,
                &to,
                first as int,
                last as int,
            ),
{
    move |builder: SubcircuitBuilder|
        ensures
            mut_ref_future(builder.cb).model() == gate_model(
                builder.model(),
                &from,
                enable@,
                &to,
                first as int,
                last as int,
            ),
        {
            let mut b = builder;
            gate_into(&mut b, &from, &enable, &to, first, last);
            assert(has_resolved(b.cb));
        }
}

} // verus!
