use vstd::prelude::*;

use crate::chip::{Chip, ChipView};
use crate::eval::{
    eval_spec, evaluate_spec, find_chip, gather_spec, lemma_find_chip_bound, is_primitive, run_from, write_from, zeros,
    EvalError,
};
use crate::netlist::{
    blocked, first_ready_from, index_from, index_of, pending_writer, resolve_from, resolve_inst,
    resolve_spec, schedule_from, schedule_spec, sink_slot, slot_for, slots_from, source_slot, Slot,
    StepView,
};
use crate::parser::{parse_spec, ParseError};
use crate::token::Token;

verus! {

/// The primitive gate computes NAND: on inputs `[a, b]` it returns
/// `[!(a && b)]`, whatever the library holds.
pub proof fn law_nand_truth_table(name: String, lib: Seq<Chip>, a: bool, b: bool)
    requires
        is_primitive(name),
    ensures
        evaluate_spec(name, lib, seq![a, b]) == Ok::<Seq<bool>, EvalError>(seq![!(a && b)]),
{
}

/// An input vector whose length differs from the declared input count of
/// the callee (two for the primitive) fails with an arity error that names
/// the callee and both counts; it is never truncated or padded.
pub proof fn law_arity_mismatch(name: String, lib: Seq<Chip>, ins: Seq<bool>)
    requires
        is_primitive(name) ==> ins.len() != 2,
        !is_primitive(name) ==> (find_chip(lib, name@) matches Some(i) && ins.len() != lib[i]@.inputs.len()),
        ins.len() <= usize::MAX,
    ensures
        evaluate_spec(name, lib, ins) == Err::<Seq<bool>, EvalError>(
            EvalError::Arity {
                name,
                expected: if is_primitive(name) {
                    2
                } else {
                    lib[find_chip(lib, name@)->Some_0]@.inputs.len() as usize
                },
                actual: ins.len() as usize,
            },
        ),
{
    assert(!seq![].contains(find_chip(lib, name@)->Some_0 as usize));
}

/// Parsing is a function of the token sequence: equal sequences give equal
/// chips, or equal errors.
pub proof fn law_parse_deterministic(s1: Seq<Token>, s2: Seq<Token>)
    requires
        s1 == s2,
    ensures
        parse_spec(s1) == parse_spec(s2),
{
}

/// `c` has one input `A`, one output `Z`, no internal wire, and the single
/// instruction `nand(A, A) -> Z`.
pub open spec fn is_not_chip(c: ChipView) -> bool {
    &&& c.inputs.len() == 1
    &&& c.outputs.len() == 1
    &&& c.internal.len() == 0
    &&& c.instructions.len() == 1
    &&& is_primitive(c.instructions[0].callee)
    &&& c.instructions[0].inputs.len() == 2
    &&& c.instructions[0].inputs[0]@ == c.inputs[0].name@
    &&& c.instructions[0].inputs[1]@ == c.inputs[0].name@
    &&& c.instructions[0].outputs.len() == 1
    &&& c.instructions[0].outputs[0]@ == c.outputs[0].name@
}

/// `c` has inputs `A`, `B`, one output `Z`, one internal wire `X`, four
/// distinct names among them, and the instructions `nand(A, B) -> X` and
/// `not(X) -> Z`, where the second calls the chip named `not_name`.
pub open spec fn is_and_chip(c: ChipView, not_name: String) -> bool {
    &&& c.inputs.len() == 2
    &&& c.outputs.len() == 1
    &&& c.internal.len() == 1
    &&& c.instructions.len() == 2
    &&& c.inputs[0].name@ != c.inputs[1].name@
    &&& c.internal[0].name@ != c.inputs[0].name@
    &&& c.internal[0].name@ != c.inputs[1].name@
    &&& c.internal[0].name@ != c.outputs[0].name@
    &&& is_primitive(c.instructions[0].callee)
    &&& c.instructions[0].inputs.len() == 2
    &&& c.instructions[0].inputs[0]@ == c.inputs[0].name@
    &&& c.instructions[0].inputs[1]@ == c.inputs[1].name@
    &&& c.instructions[0].outputs.len() == 1
    &&& c.instructions[0].outputs[0]@ == c.internal[0].name@
    &&& c.instructions[1].callee@ == not_name@
    &&& c.instructions[1].inputs.len() == 1
    &&& c.instructions[1].inputs[0]@ == c.internal[0].name@
    &&& c.instructions[1].outputs.len() == 1
    &&& c.instructions[1].outputs[0]@ == c.outputs[0].name@
}

proof fn lemma_not_chip(name: String, lib: Seq<Chip>, a: bool, stack: Seq<usize>)
    requires
        !is_primitive(name),
        find_chip(lib, name@) matches Some(k) && is_not_chip(lib[k]@) && !stack.contains(k as usize),
    ensures
        eval_spec(name, lib, seq![a], stack) == Ok::<Seq<bool>, EvalError>(seq![!a]),
{
    let k = find_chip(lib, name@)->Some_0;
    let c = lib[k]@;
    let i0 = c.instructions[0];
    assert(index_of(c.inputs, i0.inputs[0]@) == Some(0int));
    assert(index_of(c.inputs, i0.inputs[1]@) == Some(0int));
    assert(index_of(c.outputs, i0.outputs[0]@) == Some(0int));
    assert(source_slot(c, i0.inputs[0]) == Some(Slot::Input(0)));
    assert(source_slot(c, i0.inputs[1]) == Some(Slot::Input(0)));
    assert(sink_slot(c, i0.outputs[0]) == Some(Slot::Output(0)));
    let ins = seq![Slot::Input(0), Slot::Input(0)];
    let outs = seq![Slot::Output(0)];
    assert(slots_from(c, i0.inputs, true, 2, ins) == Ok::<Seq<Slot>, EvalError>(ins));
    assert(seq![Slot::Input(0)].push(Slot::Input(0)) == ins);
    assert(slots_from(c, i0.inputs, true, 1, seq![Slot::Input(0)]) == Ok::<Seq<Slot>, EvalError>(ins));
    assert(seq![].push(Slot::Input(0)) == seq![Slot::Input(0)]);
    assert(slots_from(c, i0.inputs, true, 0, seq![]) == Ok::<Seq<Slot>, EvalError>(ins));
    assert(seq![].push(Slot::Output(0)) == outs);
    assert(slots_from(c, i0.outputs, false, 1, outs) == Ok::<Seq<Slot>, EvalError>(outs));
    assert(slots_from(c, i0.outputs, false, 0, seq![]) == Ok::<Seq<Slot>, EvalError>(outs));
    let st = StepView { callee: i0.callee, inputs: ins, outputs: outs };
    assert(resolve_inst(c, i0) == Ok::<StepView, EvalError>(st));
    let steps = seq![st];
    assert(seq![].push(st) == steps);
    assert(resolve_from(c, 1, steps) == Ok::<Seq<StepView>, EvalError>(steps));
    assert(resolve_spec(c) == Ok::<Seq<StepView>, EvalError>(steps));
    let done0 = Seq::new(1, |i: int| false);
    assert(!blocked(steps, done0, 0));
    assert(first_ready_from(steps, done0, 0) == Some(0int));
    assert(seq![].push(0usize) == seq![0usize]);
    assert(schedule_from(steps, done0.update(0, true), seq![0usize]) == Some(seq![0usize]));
    assert(schedule_spec(steps) == Some(seq![0usize]));
    assert(!seq![].contains(k as usize) || stack.len() > 0);
    let inner = stack.push(k as usize);
    assert(gather_spec(seq![a], zeros(0), ins) =~= seq![a, a]);
    assert(eval_spec(i0.callee, lib, seq![a, a], inner) == Ok::<Seq<bool>, EvalError>(seq![!a]));
    assert(zeros(1).update(0, !a) =~= seq![!a]);
    assert(write_from(seq![!a], zeros(0), outs, seq![!a], 1) == (seq![!a], zeros(0)));
    assert(write_from(zeros(1), zeros(0), outs, seq![!a], 0) == (seq![!a], zeros(0)));
    assert(run_from(lib, inner, seq![a], steps, seq![0usize], 1, seq![!a], zeros(0)) == Ok::<
        Seq<bool>,
        EvalError,
    >(seq![!a]));
    assert(run_from(lib, inner, seq![a], steps, seq![0usize], 0, zeros(1), zeros(0)) == Ok::<
        Seq<bool>,
        EvalError,
    >(seq![!a]));
}

/// A chip defined as the single instruction `nand(A, A) -> Z` computes NOT.
pub proof fn law_not_from_nand(name: String, lib: Seq<Chip>, a: bool)
    requires
        !is_primitive(name),
        find_chip(lib, name@) matches Some(k) && is_not_chip(lib[k]@),
    ensures
        evaluate_spec(name, lib, seq![a]) == Ok::<Seq<bool>, EvalError>(seq![!a]),
{
    lemma_not_chip(name, lib, a, seq![]);
}

/// A chip with internal wire `X` and the instructions `nand(A, B) -> X` and
/// `not(X) -> Z`, in a library where `not` is the NOT chip, computes AND.
pub proof fn law_and_from_nand(name: String, not_name: String, lib: Seq<Chip>, a: bool, b: bool)
    requires
        !is_primitive(name),
        !is_primitive(not_name),
        find_chip(lib, name@) matches Some(k) && is_and_chip(lib[k]@, not_name),
        find_chip(lib, not_name@) matches Some(m) && is_not_chip(lib[m]@),
        lib.len() <= usize::MAX,
    ensures
        evaluate_spec(name, lib, seq![a, b]) == Ok::<Seq<bool>, EvalError>(seq![a && b]),
{
    let k = find_chip(lib, name@)->Some_0;
    let c = lib[k]@;
    let i0 = c.instructions[0];
    let i1 = c.instructions[1];
    let x = !(a && b);
    // Resolution of every name.
    assert(index_of(c.inputs, i0.inputs[0]@) == Some(0int));
    assert(index_from(c.inputs, i0.inputs[1]@, 1) == Some(1int));
    assert(index_of(c.inputs, i0.inputs[1]@) == Some(1int));
    assert(index_from(c.inputs, i1.inputs[0]@, 2) is None);
    assert(index_from(c.inputs, i1.inputs[0]@, 1) is None);
    assert(index_of(c.inputs, i1.inputs[0]@) is None);
    assert(index_of(c.internal, i1.inputs[0]@) == Some(0int));
    assert(index_from(c.outputs, i0.outputs[0]@, 1) is None);
    assert(index_of(c.outputs, i0.outputs[0]@) is None);
    assert(index_of(c.internal, i0.outputs[0]@) == Some(0int));
    assert(index_of(c.outputs, i1.outputs[0]@) == Some(0int));
    let in0 = seq![Slot::Input(0), Slot::Input(1)];
    let out0 = seq![Slot::Internal(0)];
    let in1 = seq![Slot::Internal(0)];
    let out1 = seq![Slot::Output(0)];
    assert(seq![].push(Slot::Input(0)).push(Slot::Input(1)) == in0);
    assert(slots_from(c, i0.inputs, true, 2, in0) == Ok::<Seq<Slot>, EvalError>(in0));
    assert(slots_from(c, i0.inputs, true, 1, seq![Slot::Input(0)]) == Ok::<Seq<Slot>, EvalError>(in0));
    assert(slots_from(c, i0.inputs, true, 0, seq![]) == Ok::<Seq<Slot>, EvalError>(in0));
    assert(seq![].push(Slot::Internal(0)) == out0);
    assert(slots_from(c, i0.outputs, false, 1, out0) == Ok::<Seq<Slot>, EvalError>(out0));
    assert(slots_from(c, i0.outputs, false, 0, seq![]) == Ok::<Seq<Slot>, EvalError>(out0));
    assert(slots_from(c, i1.inputs, true, 1, in1) == Ok::<Seq<Slot>, EvalError>(in1));
    assert(slots_from(c, i1.inputs, true, 0, seq![]) == Ok::<Seq<Slot>, EvalError>(in1));
    assert(seq![].push(Slot::Output(0)) == out1);
    assert(slots_from(c, i1.outputs, false, 1, out1) == Ok::<Seq<Slot>, EvalError>(out1));
    assert(slots_from(c, i1.outputs, false, 0, seq![]) == Ok::<Seq<Slot>, EvalError>(out1));
    let s0 = StepView { callee: i0.callee, inputs: in0, outputs: out0 };
    let s1 = StepView { callee: i1.callee, inputs: in1, outputs: out1 };
    assert(resolve_inst(c, i0) == Ok::<StepView, EvalError>(s0));
    assert(resolve_inst(c, i1) == Ok::<StepView, EvalError>(s1));
    let steps = seq![s0, s1];
    assert(seq![].push(s0).push(s1) == steps);
    assert(resolve_from(c, 2, steps) == Ok::<Seq<StepView>, EvalError>(steps));
    assert(resolve_from(c, 1, seq![s0]) == Ok::<Seq<StepView>, EvalError>(steps));
    assert(resolve_spec(c) == Ok::<Seq<StepView>, EvalError>(steps));
    // Scheduling: the NAND step first, then the NOT step.
    let done0 = Seq::new(2, |i: int| false);
    let done1 = done0.update(0, true);
    let done2 = done1.update(1, true);
    assert(!blocked(steps, done0, 0));
    assert(first_ready_from(steps, done0, 0) == Some(0int));
    assert(!s1.outputs.contains(Slot::Internal(0))) by {
        assert(s1.outputs[0] != Slot::Internal(0));
    }
    assert(!pending_writer(steps, done1, Slot::Internal(0)));
    assert(!blocked(steps, done1, 1));
    assert(first_ready_from(steps, done1, 1) == Some(1int));
    assert(first_ready_from(steps, done1, 0) == Some(1int));
    let order = seq![0usize, 1usize];
    assert(seq![].push(0usize) == seq![0usize]);
    assert(seq![0usize].push(1usize) == order);
    assert(schedule_from(steps, done2, order) == Some(order));
    assert(schedule_from(steps, done1, seq![0usize]) == Some(order));
    assert(schedule_spec(steps) == Some(order));
    // Running the two steps.
    assert(!seq![].contains(k as usize));
    let inner = seq![].push(k as usize);
    let m = find_chip(lib, not_name@)->Some_0;
    lemma_find_chip_bound(lib, not_name@, 0);
    lemma_find_chip_bound(lib, name@, 0);
    assert(m != k);
    assert(!inner.contains(m as usize)) by {
        assert(inner[0] == k as usize);
    }
    let ins = seq![a, b];
    assert(gather_spec(ins, zeros(1), in0) =~= seq![a, b]);
    assert(eval_spec(i0.callee, lib, seq![a, b], inner) == Ok::<Seq<bool>, EvalError>(seq![x]));
    assert(zeros(1).update(0, x) =~= seq![x]);
    assert(write_from(zeros(1), seq![x], out0, seq![x], 1) == (zeros(1), seq![x]));
    assert(write_from(zeros(1), zeros(1), out0, seq![x], 0) == (zeros(1), seq![x]));
    assert(gather_spec(ins, seq![x], in1) =~= seq![x]);
    lemma_not_chip(i1.callee, lib, x, inner);
    assert(zeros(1).update(0, !x) =~= seq![!x]);
    assert(write_from(seq![!x], seq![x], out1, seq![!x], 1) == (seq![!x], seq![x]));
    assert(write_from(zeros(1), seq![x], out1, seq![!x], 0) == (seq![!x], seq![x]));
    assert(run_from(lib, inner, ins, steps, order, 2, seq![!x], seq![x]) == Ok::<Seq<bool>, EvalError>(
        seq![!x],
    ));
    assert(run_from(lib, inner, ins, steps, order, 1, zeros(1), seq![x]) == Ok::<Seq<bool>, EvalError>(
        seq![!x],
    ));
    assert(run_from(lib, inner, ins, steps, order, 0, zeros(1), zeros(1)) == Ok::<Seq<bool>, EvalError>(
        seq![!x],
    ));
    assert(seq![!x] == seq![a && b]);
}

proof fn lemma_slots_error_kind(c: ChipView, names: Seq<String>, source: bool, k: int, acc: Seq<Slot>)
    ensures
        slots_from(c, names, source, k, acc) is Err ==> (slots_from(c, names, source, k, acc)
            matches Err(EvalError::UnresolvedWire { chip, name }) && chip == c.name && exists|q: int|
            k <= q < names.len() && slot_for(c, names[q], source) is None && names[q] == name),
    decreases names.len() - k,
{
    if 0 <= k < names.len() {
        if let Some(sl) = slot_for(c, names[k], source) {
            lemma_slots_error_kind(c, names, source, k + 1, acc.push(sl));
        }
    }
}

proof fn lemma_slots_fail(c: ChipView, names: Seq<String>, source: bool, k: int, acc: Seq<Slot>, p: int)
    requires
        0 <= k <= p < names.len(),
        slot_for(c, names[p], source) is None,
    ensures
        slots_from(c, names, source, k, acc) is Err,
    decreases names.len() - k,
{
    if let Some(sl) = slot_for(c, names[k], source) {
        lemma_slots_fail(c, names, source, k + 1, acc.push(sl), p);
    }
}

/// The name at position `p` of the inputs (`source`) or of the outputs of
/// instruction `j` of `c`.
pub open spec fn use_name(c: ChipView, j: int, p: int, source: bool) -> String {
    if source {
        c.instructions[j].inputs[p]
    } else {
        c.instructions[j].outputs[p]
    }
}

proof fn lemma_resolve_error_kind(c: ChipView, k: int, acc: Seq<StepView>)
    ensures
        resolve_from(c, k, acc) is Err ==> (resolve_from(c, k, acc) matches Err(
            EvalError::UnresolvedWire { chip, name },
        ) && chip == c.name && exists|j: int, p: int, source: bool|
            k <= j && unresolvable(c, j, p, source) && use_name(c, j, p, source) == name),
    decreases c.instructions.len() - k,
{
    if 0 <= k < c.instructions.len() {
        let i = c.instructions[k];
        lemma_slots_error_kind(c, i.inputs, true, 0, seq![]);
        lemma_slots_error_kind(c, i.outputs, false, 0, seq![]);
        match resolve_inst(c, i) {
            Ok(st) => lemma_resolve_error_kind(c, k + 1, acc.push(st)),
            Err(e) => {
                if slots_from(c, i.inputs, true, 0, seq![]) is Err {
                    let q = choose|q: int|
                        0 <= q < i.inputs.len() && slot_for(c, i.inputs[q], true) is None && i.inputs[q]
                            == e->UnresolvedWire_name;
                    assert(unresolvable(c, k, q, true) && use_name(c, k, q, true) == e->UnresolvedWire_name);
                } else {
                    let q = choose|q: int|
                        0 <= q < i.outputs.len() && slot_for(c, i.outputs[q], false) is None
                            && i.outputs[q] == e->UnresolvedWire_name;
                    assert(unresolvable(c, k, q, false) && use_name(c, k, q, false)
                        == e->UnresolvedWire_name);
                }
            },
        }
    }
}

/// Instruction `j` of `c` uses, at position `p` of its inputs (`source`) or
/// of its outputs, a name that resolves to no wire there: an input name that
/// is neither an input nor an internal wire of `c`, or an output name that
/// is neither an output nor an internal wire.
pub open spec fn unresolvable(c: ChipView, j: int, p: int, source: bool) -> bool {
    &&& 0 <= j < c.instructions.len()
    &&& source ==> 0 <= p < c.instructions[j].inputs.len() && source_slot(
        c,
        c.instructions[j].inputs[p],
    ) is None
    &&& !source ==> 0 <= p < c.instructions[j].outputs.len() && sink_slot(
        c,
        c.instructions[j].outputs[p],
    ) is None
}

proof fn lemma_resolve_fail(c: ChipView, k: int, acc: Seq<StepView>, j: int, p: int, source: bool)
    requires
        0 <= k <= j,
        unresolvable(c, j, p, source),
    ensures
        resolve_from(c, k, acc) is Err,
    decreases c.instructions.len() - k,
{
    let i = c.instructions[k];
    if k == j {
        if source {
            lemma_slots_fail(c, i.inputs, true, 0, seq![], p);
        } else {
            lemma_slots_error_kind(c, i.inputs, true, 0, seq![]);
            lemma_slots_fail(c, i.outputs, false, 0, seq![], p);
        }
    } else if let Ok(st) = resolve_inst(c, i) {
        lemma_resolve_fail(c, k + 1, acc.push(st), j, p, source);
    }
}

/// An instruction that names a wire its chip does not have where the name is
/// used makes the evaluation of that chip fail with an unresolved-wire error
/// for that chip, wherever the instruction stands in the list, and before
/// any instruction runs. The error carries a name that resolves nowhere
/// where it is used: where only one name is missing, that name.
pub proof fn law_unresolved_wire(name: String, lib: Seq<Chip>, ins: Seq<bool>, j: int, p: int, source: bool)
    requires
        !is_primitive(name),
        find_chip(lib, name@) matches Some(k) && ins.len() == lib[k]@.inputs.len() && unresolvable(
            lib[k]@,
            j,
            p,
            source,
        ),
    ensures
        evaluate_spec(name, lib, ins) matches Err(EvalError::UnresolvedWire { chip, name: w }) && chip
            == lib[find_chip(lib, name@)->Some_0].name && exists|j2: int, p2: int, s2: bool|
            unresolvable(lib[find_chip(lib, name@)->Some_0]@, j2, p2, s2) && use_name(
                lib[find_chip(lib, name@)->Some_0]@,
                j2,
                p2,
                s2,
            ) == w,
{
    let k = find_chip(lib, name@)->Some_0;
    assert(!seq![].contains(k as usize));
    lemma_resolve_fail(lib[k]@, 0, seq![], j, p, source);
    lemma_resolve_error_kind(lib[k]@, 0, seq![]);
}

/// The steps at the positions in `cyc`, a nonempty set, each read an
/// internal wire that some step of `cyc` writes: the wires they read depend
/// on each other in a cycle that no chip input breaks.
pub open spec fn closed_cycle(steps: Seq<StepView>, cyc: Set<int>) -> bool {
    &&& exists|k: int| cyc.contains(k)
    &&& forall|k: int|
        #[trigger] cyc.contains(k) ==> 0 <= k < steps.len() && exists|p: int, m: int|
            0 <= p < steps[k].inputs.len() && steps[k].inputs[p] is Internal && cyc.contains(m) && 0
                <= m < steps.len() && steps[m].outputs.contains(steps[k].inputs[p])
}

/// How many entries of `d` are true.
pub open spec fn trues(d: Seq<bool>) -> nat
    decreases d.len(),
{
    if d.len() == 0 {
        0
    } else {
        trues(d.drop_last()) + if d.last() {
            1nat
        } else {
            0nat
        }
    }
}

proof fn lemma_trues_none(d: Seq<bool>)
    requires
        forall|i: int| 0 <= i < d.len() ==> !d[i],
    ensures
        trues(d) == 0,
    decreases d.len(),
{
    if d.len() > 0 {
        lemma_trues_none(d.drop_last());
    }
}

proof fn lemma_trues_update(d: Seq<bool>, k: int)
    requires
        0 <= k < d.len(),
        !d[k],
    ensures
        trues(d.update(k, true)) == trues(d) + 1,
    decreases d.len(),
{
    let u = d.update(k, true);
    if k == d.len() - 1 {
        assert(u.drop_last() =~= d.drop_last());
    } else {
        assert(u.drop_last() =~= d.drop_last().update(k, true));
        lemma_trues_update(d.drop_last(), k);
    }
}

proof fn lemma_trues_below(d: Seq<bool>, k: int)
    requires
        0 <= k < d.len(),
        !d[k],
    ensures
        trues(d) < d.len(),
    decreases d.len(),
{
    if k < d.len() - 1 {
        lemma_trues_below(d.drop_last(), k);
    } else {
        lemma_trues_at_most(d.drop_last());
    }
}

proof fn lemma_trues_at_most(d: Seq<bool>)
    ensures
        trues(d) <= d.len(),
    decreases d.len(),
{
    if d.len() > 0 {
        lemma_trues_at_most(d.drop_last());
    }
}

proof fn lemma_first_ready_is_ready(steps: Seq<StepView>, done: Seq<bool>, k: int)
    requires
        0 <= k,
    ensures
        first_ready_from(steps, done, k) matches Some(j) ==> k <= j < steps.len() && !done[j]
            && !blocked(steps, done, j),
    decreases steps.len() - k,
{
    if k < steps.len() && !(!done[k] && !blocked(steps, done, k)) {
        lemma_first_ready_is_ready(steps, done, k + 1);
    }
}

proof fn lemma_schedule_cycle(steps: Seq<StepView>, done: Seq<bool>, order: Seq<usize>, cyc: Set<int>)
    requires
        done.len() == steps.len(),
        closed_cycle(steps, cyc),
        forall|k: int| #[trigger] cyc.contains(k) ==> !done[k],
        trues(done) == order.len(),
    ensures
        schedule_from(steps, done, order) is None,
    decreases steps.len() - order.len(),
{
    let k0 = choose|k: int| cyc.contains(k);
    lemma_trues_below(done, k0);
    lemma_first_ready_is_ready(steps, done, 0);
    if let Some(j) = first_ready_from(steps, done, 0) {
        if cyc.contains(j) {
            let (p, m) = choose|p: int, m: int|
                0 <= p < steps[j].inputs.len() && steps[j].inputs[p] is Internal && cyc.contains(m)
                    && 0 <= m < steps.len() && steps[m].outputs.contains(steps[j].inputs[p]);
            assert(pending_writer(steps, done, steps[j].inputs[p]));
            assert(blocked(steps, done, j));
        }
        lemma_trues_update(done, j);
        lemma_schedule_cycle(steps, done.update(j, true), order.push(j as usize), cyc);
    }
}

/// A chip whose resolved instructions contain a set that reads internal
/// wires only that set writes, in a cycle, fails with a combinational-cycle
/// error for that chip, without running any instruction.
pub proof fn law_cycle_rejected(name: String, lib: Seq<Chip>, ins: Seq<bool>, cyc: Set<int>)
    requires
        !is_primitive(name),
        find_chip(lib, name@) matches Some(k) && ins.len() == lib[k]@.inputs.len() && (resolve_spec(
            lib[k]@,
        ) matches Ok(steps) && closed_cycle(steps, cyc)),
    ensures
        evaluate_spec(name, lib, ins) == Err::<Seq<bool>, EvalError>(
            EvalError::CombinationalCycle(lib[find_chip(lib, name@)->Some_0].name),
        ),
{
    let k = find_chip(lib, name@)->Some_0;
    let steps = resolve_spec(lib[k]@)->Ok_0;
    assert(!seq![].contains(k as usize));
    let done0 = Seq::new(steps.len(), |i: int| false);
    lemma_trues_none(done0);
    lemma_schedule_cycle(steps, done0, seq![], cyc);
}

/// Step `w` writes an internal wire that step `r` reads.
pub open spec fn feeds(steps: Seq<StepView>, w: int, r: int) -> bool {
    exists|p: int|
        0 <= p < steps[r].inputs.len() && (#[trigger] steps[r].inputs[p]) is Internal
            && steps[w].outputs.contains(steps[r].inputs[p])
}

/// `o` lists every position below `n` exactly once.
pub open spec fn is_permutation(o: Seq<usize>, n: int) -> bool {
    &&& o.len() == n
    &&& o.no_duplicates()
    &&& forall|i: int| 0 <= i < o.len() ==> o[i] < n
    &&& forall|k: usize| k < n ==> #[trigger] o.contains(k)
}

/// In the order `o`, every step that writes an internal wire comes before
/// each step that reads it.
pub open spec fn writers_first(steps: Seq<StepView>, o: Seq<usize>) -> bool {
    forall|i: int, j: int|
        0 <= i < o.len() && 0 <= j < o.len() && #[trigger] feeds(steps, o[i] as int, o[j] as int)
            ==> i < j
}

/// What holds of a partial schedule: `order` lists the steps marked in
/// `done`, once each, and each listed step comes after every writer of the
/// internal wires it reads.
spec fn schedule_invariant(steps: Seq<StepView>, done: Seq<bool>, order: Seq<usize>) -> bool {
    &&& steps.len() <= usize::MAX
    &&& done.len() == steps.len()
    &&& trues(done) == order.len()
    &&& order.no_duplicates()
    &&& forall|i: int| 0 <= i < order.len() ==> order[i] < steps.len()
    &&& forall|m: int| 0 <= m < steps.len() ==> (done[m] <==> order.contains(m as usize))
    &&& forall|j: int, m: int|
        0 <= j < order.len() && 0 <= m < steps.len() && #[trigger] feeds(steps, m, order[j] as int)
            ==> exists|i: int| 0 <= i < j && order[i] as int == m
}

proof fn lemma_trues_full(d: Seq<bool>)
    requires
        forall|i: int| 0 <= i < d.len() ==> d[i],
    ensures
        trues(d) == d.len(),
    decreases d.len(),
{
    if d.len() > 0 {
        lemma_trues_full(d.drop_last());
    }
}

proof fn lemma_schedule_sound(steps: Seq<StepView>, done: Seq<bool>, order: Seq<usize>)
    requires
        schedule_invariant(steps, done, order),
    ensures
        schedule_from(steps, done, order) matches Some(o) ==> is_permutation(o, steps.len() as int)
            && writers_first(steps, o),
    decreases steps.len() - order.len(),
{
    let n = steps.len() as int;
    if order.len() >= n {
        lemma_trues_at_most(done);
        assert forall|k: usize| k < n implies #[trigger] order.contains(k) by {
            if !done[k as int] {
                lemma_trues_below(done, k as int);
            }
        }
        assert forall|i: int, j: int|
            0 <= i < order.len() && 0 <= j < order.len() && #[trigger] feeds(
                steps,
                order[i] as int,
                order[j] as int,
            ) implies i < j by {
            let i2 = choose|i2: int| 0 <= i2 < j && order[i2] as int == order[i] as int;
            assert(order[i2] == order[i]);
        }
    } else {
        lemma_first_ready_is_ready(steps, done, 0);
        if let Some(k) = first_ready_from(steps, done, 0) {
            let d2 = done.update(k, true);
            let o2 = order.push(k as usize);
            let len = order.len() as int;
            lemma_trues_update(done, k);
            assert(!order.contains(k as usize));
            assert(o2.no_duplicates()) by {
                assert forall|a: int, b: int| 0 <= a < o2.len() && 0 <= b < o2.len() && a != b implies o2[a]
                    != o2[b] by {
                    if a < len && b < len {
                        assert(o2[a] == order[a] && o2[b] == order[b]);
                    } else if a < len {
                        assert(o2[a] == order[a]);
                    } else {
                        assert(o2[b] == order[b]);
                    }
                }
            }
            assert forall|i: int| 0 <= i < o2.len() implies o2[i] < n by {
                if i < len {
                    assert(o2[i] == order[i]);
                }
            }
            assert forall|m: int| 0 <= m < n implies (d2[m] <==> o2.contains(m as usize)) by {
                if order.contains(m as usize) {
                    let i = choose|i: int| 0 <= i < order.len() && order[i] == m as usize;
                    assert(o2[i] == m as usize);
                }
                if o2.contains(m as usize) && m != k {
                    let i = choose|i: int| 0 <= i < o2.len() && o2[i] == m as usize;
                    assert(i < len);
                    assert(order[i] == m as usize);
                }
                if m == k {
                    assert(o2[len] == k as usize);
                }
            }
            assert forall|j: int, m: int|
                0 <= j < o2.len() && 0 <= m < n && #[trigger] feeds(steps, m, o2[j] as int) implies exists|
                i: int,
            | 0 <= i < j && o2[i] as int == m by {
                if j < len {
                    assert(o2[j] == order[j]);
                    assert(feeds(steps, m, order[j] as int));
                    let i = choose|i: int| 0 <= i < j && order[i] as int == m;
                    assert(o2[i] == order[i]);
                } else {
                    assert(o2[j] == k as usize);
                    let p = choose|p: int|
                        0 <= p < steps[k].inputs.len() && (#[trigger] steps[k].inputs[p]) is Internal
                            && steps[m].outputs.contains(steps[k].inputs[p]);
                    if !done[m] {
                        assert(pending_writer(steps, done, steps[k].inputs[p]));
                        assert(blocked(steps, done, k));
                    }
                    let i = choose|i: int| 0 <= i < order.len() && order[i] == m as usize;
                    assert(o2[i] == order[i]);
                }
            }
            lemma_schedule_sound(steps, d2, o2);
        }
    }
}

/// A schedule runs every step exactly once, and each step that writes an
/// internal wire before every step that reads it.
pub proof fn law_schedule_sound(steps: Seq<StepView>)
    requires
        steps.len() <= usize::MAX,
    ensures
        schedule_spec(steps) matches Some(o) ==> is_permutation(o, steps.len() as int) && writers_first(
            steps,
            o,
        ),
{
    let done0 = Seq::new(steps.len(), |i: int| false);
    lemma_trues_none(done0);
    lemma_schedule_sound(steps, done0, seq![]);
}

proof fn lemma_none_ready(steps: Seq<StepView>, done: Seq<bool>, k: int, q: int)
    requires
        0 <= k <= q < steps.len(),
        first_ready_from(steps, done, k) is None,
    ensures
        !(!done[q] && !blocked(steps, done, q)),
    decreases steps.len() - k,
{
    if k < q {
        lemma_none_ready(steps, done, k + 1, q);
    }
}

proof fn lemma_schedule_none(steps: Seq<StepView>, done: Seq<bool>, order: Seq<usize>)
    requires
        done.len() == steps.len(),
        trues(done) == order.len(),
    ensures
        schedule_from(steps, done, order) is None ==> exists|cyc: Set<int>| closed_cycle(steps, cyc),
    decreases steps.len() - order.len(),
{
    if order.len() < steps.len() {
        lemma_first_ready_is_ready(steps, done, 0);
        match first_ready_from(steps, done, 0) {
            Some(k) => {
                lemma_trues_update(done, k);
                lemma_schedule_none(steps, done.update(k, true), order.push(k as usize));
            },
            None => {
                if forall|i: int| 0 <= i < done.len() ==> done[i] {
                    lemma_trues_full(done);
                }
                let k0 = choose|i: int| 0 <= i < done.len() && !done[i];
                let cyc = Set::new(|k: int| 0 <= k < steps.len() && !done[k]);
                assert(cyc.contains(k0));
                assert forall|k: int| #[trigger] cyc.contains(k) implies 0 <= k < steps.len() && exists|
                    p: int,
                    m: int,
                |
                    0 <= p < steps[k].inputs.len() && steps[k].inputs[p] is Internal && cyc.contains(m)
                        && 0 <= m < steps.len() && steps[m].outputs.contains(steps[k].inputs[p]) by {
                    lemma_none_ready(steps, done, 0, k);
                    let p = choose|p: int|
                        0 <= p < steps[k].inputs.len() && (#[trigger] steps[k].inputs[p]) is Internal
                            && pending_writer(steps, done, steps[k].inputs[p]);
                    let m = choose|m: int|
                        0 <= m < steps.len() && !done[m] && #[trigger] steps[m].outputs.contains(
                            steps[k].inputs[p],
                        );
                    assert(cyc.contains(m));
                }
                assert(closed_cycle(steps, cyc));
            },
        }
    }
}

/// Where no schedule exists, some steps read internal wires that only they
/// write, in a cycle: the converse of the rejection of such cycles.
pub proof fn law_unschedulable_has_cycle(steps: Seq<StepView>)
    ensures
        schedule_spec(steps) is None ==> exists|cyc: Set<int>| closed_cycle(steps, cyc),
{
    let done0 = Seq::new(steps.len(), |i: int| false);
    lemma_trues_none(done0);
    lemma_schedule_none(steps, done0, seq![]);
}

} // verus!
