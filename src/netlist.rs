use vstd::prelude::*;

use crate::chip::{Chip, ChipView, InstrView, Instruction, Wire};
use crate::eval::EvalError;

verus! {

/// Where an instruction reads or writes one bit: an input of the enclosing
/// chip, one of its outputs, or one of its internal wires, by position.
#[derive(Clone, Copy, Debug, PartialEq, Eq, Structural)]
pub enum Slot {
    Input(usize),
    Output(usize),
    Internal(usize),
}

/// An instruction whose wire names have been resolved to slots.
#[derive(Clone, Debug, PartialEq, Eq)]
pub struct Step {
    pub callee: String,
    pub inputs: Vec<Slot>,
    pub outputs: Vec<Slot>,
}

pub ghost struct StepView {
    pub callee: String,
    pub inputs: Seq<Slot>,
    pub outputs: Seq<Slot>,
}

impl View for Step {
    type V = StepView;

    open spec fn view(&self) -> StepView {
        StepView { callee: self.callee, inputs: self.inputs@, outputs: self.outputs@ }
    }
}

pub open spec fn views(steps: Seq<Step>) -> Seq<StepView> {
    steps.map_values(|s: Step| s@)
}

/// The first position, from `i` on, of a wire called `name`.
pub open spec fn index_from(ws: Seq<Wire>, name: Seq<char>, i: int) -> Option<int>
    decreases ws.len() - i,
{
    if i < 0 || i >= ws.len() {
        None
    } else if ws[i].name@ == name {
        Some(i)
    } else {
        index_from(ws, name, i + 1)
    }
}

pub open spec fn index_of(ws: Seq<Wire>, name: Seq<char>) -> Option<int> {
    index_from(ws, name, 0)
}

/// Where an instruction input called `name` reads: the chip's inputs first,
/// then its internal wires.
pub open spec fn source_slot(c: ChipView, name: String) -> Option<Slot> {
    match index_of(c.inputs, name@) {
        Some(i) => Some(Slot::Input(i as usize)),
        None => match index_of(c.internal, name@) {
            Some(i) => Some(Slot::Internal(i as usize)),
            None => None,
        },
    }
}

/// Where an instruction output called `name` writes: the chip's outputs
/// first, then its internal wires.
pub open spec fn sink_slot(c: ChipView, name: String) -> Option<Slot> {
    match index_of(c.outputs, name@) {
        Some(i) => Some(Slot::Output(i as usize)),
        None => match index_of(c.internal, name@) {
            Some(i) => Some(Slot::Internal(i as usize)),
            None => None,
        },
    }
}

pub open spec fn slot_for(c: ChipView, name: String, source: bool) -> Option<Slot> {
    if source {
        source_slot(c, name)
    } else {
        sink_slot(c, name)
    }
}

/// Resolves `names` from position `k` on, after the slots `acc`; fails on
/// the first name that does not resolve.
pub open spec fn slots_from(c: ChipView, names: Seq<String>, source: bool, k: int, acc: Seq<Slot>) -> Result<Seq<Slot>, EvalError>
    decreases names.len() - k,
{
    if k < 0 || k >= names.len() {
        Ok(acc)
    } else {
        match slot_for(c, names[k], source) {
            None => Err(EvalError::UnresolvedWire { chip: c.name, name: names[k] }),
            Some(sl) => slots_from(c, names, source, k + 1, acc.push(sl)),
        }
    }
}

pub open spec fn resolve_inst(c: ChipView, i: InstrView) -> Result<StepView, EvalError> {
    match slots_from(c, i.inputs, true, 0, seq![]) {
        Err(e) => Err(e),
        Ok(ins) => match slots_from(c, i.outputs, false, 0, seq![]) {
            Err(e) => Err(e),
            Ok(outs) => Ok(StepView { callee: i.callee, inputs: ins, outputs: outs }),
        },
    }
}

/// Resolves the instructions of `c` from position `k` on, in order.
pub open spec fn resolve_from(c: ChipView, k: int, acc: Seq<StepView>) -> Result<Seq<StepView>, EvalError>
    decreases c.instructions.len() - k,
{
    if k < 0 || k >= c.instructions.len() {
        Ok(acc)
    } else {
        match resolve_inst(c, c.instructions[k]) {
            Err(e) => Err(e),
            Ok(st) => resolve_from(c, k + 1, acc.push(st)),
        }
    }
}

/// Every instruction of `c` with its wire names resolved, or the first
/// name, in instruction order, that resolves nowhere.
pub open spec fn resolve_spec(c: ChipView) -> Result<Seq<StepView>, EvalError> {
    resolve_from(c, 0, seq![])
}

fn wire_index(ws: &Vec<Wire>, name: &String) -> (r: Option<usize>)
    ensures
        match r {
            Some(i) => index_of(ws@, name@) == Some(i as int),
            None => index_of(ws@, name@) is None,
        },
{
    let mut i: usize = 0;
    while i < ws.len()
        invariant
            i <= ws@.len(),
            index_of(ws@, name@) == index_from(ws@, name@, i as int),
        decreases ws.len() - i,
    {
        if ws[i].name == *name {
            return Some(i);
        }
        i = i + 1;
    }
    None
}

fn find_slot(c: &Chip, name: &String, source: bool) -> (r: Option<Slot>)
    ensures
        r == slot_for(c@, *name, source),
{
    let first = if source {
        &c.inputs
    } else {
        &c.outputs
    };
    match wire_index(first, name) {
        Some(i) => if source {
            Some(Slot::Input(i))
        } else {
            Some(Slot::Output(i))
        },
        None => match wire_index(&c.internal, name) {
            Some(i) => Some(Slot::Internal(i)),
            None => None,
        },
    }
}

fn resolve_names(c: &Chip, names: &Vec<String>, source: bool) -> (r: Result<Vec<Slot>, EvalError>)
    ensures
        match r {
            Ok(v) => slots_from(c@, names@, source, 0, seq![]) == Ok::<Seq<Slot>, EvalError>(v@),
            Err(e) => slots_from(c@, names@, source, 0, seq![]) == Err::<Seq<Slot>, EvalError>(e),
        },
{
    let mut out: Vec<Slot> = Vec::new();
    let mut k: usize = 0;
    while k < names.len()
        invariant
            k <= names@.len(),
            slots_from(c@, names@, source, 0, seq![]) == slots_from(c@, names@, source, k as int, out@),
        decreases names.len() - k,
    {
        match find_slot(c, &names[k], source) {
            None => {
                return Err(EvalError::UnresolvedWire { chip: c.name.clone(), name: names[k].clone() });
            },
            Some(sl) => out.push(sl),
        }
        k = k + 1;
    }
    Ok(out)
}

/// Resolves every wire name of every instruction of `c`.
pub fn resolve(c: &Chip) -> (r: Result<Vec<Step>, EvalError>)
    ensures
        match r {
            Ok(v) => resolve_spec(c@) == Ok::<Seq<StepView>, EvalError>(views(v@)),
            Err(e) => resolve_spec(c@) == Err::<Seq<StepView>, EvalError>(e),
        },
{
    let mut out: Vec<Step> = Vec::new();
    let mut k: usize = 0;
    assert(views(out@) =~= seq![]);
    while k < c.instructions.len()
        invariant
            k <= c.instructions@.len(),
            resolve_spec(c@) == resolve_from(c@, k as int, views(out@)),
        decreases c.instructions.len() - k,
    {
        let inst: &Instruction = &c.instructions[k];
        assert(c@.instructions[k as int] == inst@);
        let ins = match resolve_names(c, &inst.inputs, true) {
            Ok(v) => v,
            Err(e) => return Err(e),
        };
        let outs = match resolve_names(c, &inst.outputs, false) {
            Ok(v) => v,
            Err(e) => return Err(e),
        };
        let ghost before = views(out@);
        out.push(Step { callee: inst.callee.clone(), inputs: ins, outputs: outs });
        assert(views(out@) =~= before.push(out@.last()@));
        k = k + 1;
    }
    Ok(out)
}

/// Some step not yet done writes `sl`.
pub open spec fn pending_writer(steps: Seq<StepView>, done: Seq<bool>, sl: Slot) -> bool {
    exists|m: int| 0 <= m < steps.len() && !done[m] && #[trigger] steps[m].outputs.contains(sl)
}

/// Step `k` reads an internal wire that some step not yet done writes.
pub open spec fn blocked(steps: Seq<StepView>, done: Seq<bool>, k: int) -> bool {
    exists|p: int|
        0 <= p < steps[k].inputs.len() && (#[trigger] steps[k].inputs[p]) is Internal
            && pending_writer(steps, done, steps[k].inputs[p])
}

/// The first step, from position `k` on, that is not done and not blocked.
pub open spec fn first_ready_from(steps: Seq<StepView>, done: Seq<bool>, k: int) -> Option<int>
    decreases steps.len() - k,
{
    if k < 0 || k >= steps.len() {
        None
    } else if !done[k] && !blocked(steps, done, k) {
        Some(k)
    } else {
        first_ready_from(steps, done, k + 1)
    }
}

/// Appends to `order` the first ready step, again and again, until every
/// step is placed; `None` where no step is ready before that.
pub open spec fn schedule_from(steps: Seq<StepView>, done: Seq<bool>, order: Seq<usize>) -> Option<Seq<usize>>
    decreases steps.len() - order.len(),
{
    if order.len() >= steps.len() {
        Some(order)
    } else {
        match first_ready_from(steps, done, 0) {
            None => None,
            Some(k) => schedule_from(steps, done.update(k, true), order.push(k as usize)),
        }
    }
}

/// An order in which the steps can run so that every internal wire is
/// written by all its writers before a step reads it, or `None` where the
/// internal wires depend on each other in a cycle. Among ready steps the
/// earliest declared runs first.
///
/// A step that reads an internal wire waits for every step that writes it.
/// Where several steps write one internal wire, its readers therefore see
/// the value of the last writer in this order, wherever they stand in the
/// declaration: with `nand(A,A)->X; nand(X,X)->Z; nand(B,B)->X`, `Z` is
/// computed from the `X` that `B` gives.
pub open spec fn schedule_spec(steps: Seq<StepView>) -> Option<Seq<usize>> {
    schedule_from(steps, Seq::new(steps.len(), |i: int| false), seq![])
}

fn has_slot(v: &Vec<Slot>, sl: Slot) -> (r: bool)
    ensures
        r == v@.contains(sl),
{
    let mut i: usize = 0;
    while i < v.len()
        invariant
            i <= v@.len(),
            forall|j: int| 0 <= j < i ==> v@[j] != sl,
        decreases v.len() - i,
    {
        if v[i] == sl {
            return true;
        }
        i = i + 1;
    }
    false
}

fn has_pending_writer(steps: &Vec<Step>, done: &Vec<bool>, sl: Slot) -> (r: bool)
    requires
        done@.len() == steps@.len(),
    ensures
        r == pending_writer(views(steps@), done@, sl),
{
    let ghost vs = views(steps@);
    let mut m: usize = 0;
    while m < steps.len()
        invariant
            m <= steps@.len(),
            vs == views(steps@),
            done@.len() == steps@.len(),
            forall|q: int| 0 <= q < m ==> !(!done@[q] && #[trigger] vs[q].outputs.contains(sl)),
        decreases steps.len() - m,
    {
        if !done[m] && has_slot(&steps[m].outputs, sl) {
            assert(vs[m as int].outputs == steps@[m as int].outputs@);
            return true;
        }
        m = m + 1;
    }
    false
}

fn is_blocked(steps: &Vec<Step>, done: &Vec<bool>, k: usize) -> (r: bool)
    requires
        done@.len() == steps@.len(),
        k < steps@.len(),
    ensures
        r == blocked(views(steps@), done@, k as int),
{
    let ghost vs = views(steps@);
    let ins = &steps[k].inputs;
    assert(vs[k as int].inputs == ins@);
    let mut p: usize = 0;
    while p < ins.len()
        invariant
            p <= ins@.len(),
            vs == views(steps@),
            vs[k as int].inputs == ins@,
            done@.len() == steps@.len(),
            forall|q: int|
                0 <= q < p ==> !((#[trigger] vs[k as int].inputs[q]) is Internal && pending_writer(
                    vs,
                    done@,
                    vs[k as int].inputs[q],
                )),
        decreases ins.len() - p,
    {
        let sl = ins[p];
        let internal = match sl {
            Slot::Internal(_) => true,
            _ => false,
        };
        if internal && has_pending_writer(steps, done, sl) {
            return true;
        }
        p = p + 1;
    }
    false
}

fn first_ready(steps: &Vec<Step>, done: &Vec<bool>) -> (r: Option<usize>)
    requires
        done@.len() == steps@.len(),
    ensures
        match r {
            Some(k) => k < steps@.len() && first_ready_from(views(steps@), done@, 0) == Some(k as int),
            None => first_ready_from(views(steps@), done@, 0) is None,
        },
{
    let mut k: usize = 0;
    while k < steps.len()
        invariant
            k <= steps@.len(),
            done@.len() == steps@.len(),
            first_ready_from(views(steps@), done@, 0) == first_ready_from(views(steps@), done@, k as int),
        decreases steps.len() - k,
    {
        if !done[k] && !is_blocked(steps, done, k) {
            return Some(k);
        }
        k = k + 1;
    }
    None
}

/// Orders the steps so that each internal wire is read only after every
/// step that writes it has run; `None` where they depend on each other in a
/// cycle.
pub fn schedule(steps: &Vec<Step>) -> (r: Option<Vec<usize>>)
    ensures
        match r {
            Some(o) => schedule_spec(views(steps@)) == Some(o@),
            None => schedule_spec(views(steps@)) is None,
        },
{
    let mut done: Vec<bool> = Vec::new();
    while done.len() < steps.len()
        invariant
            done@.len() <= steps@.len(),
            forall|i: int| 0 <= i < done@.len() ==> !done@[i],
        decreases steps.len() - done.len(),
    {
        done.push(false);
    }
    assert(done@ =~= Seq::new(steps@.len(), |i: int| false));
    let mut order: Vec<usize> = Vec::new();
    while order.len() < steps.len()
        invariant
            done@.len() == steps@.len(),
            schedule_spec(views(steps@)) == schedule_from(views(steps@), done@, order@),
        decreases steps.len() - order.len(),
    {
        match first_ready(steps, &done) {
            None => return None,
            Some(k) => {
                done[k] = true;
                order.push(k);
            },
        }
    }
    Some(order)
}

/// `sl` names a wire that `c` declares.
pub open spec fn slot_fits(sl: Slot, c: ChipView) -> bool {
    match sl {
        Slot::Input(i) => i < c.inputs.len(),
        Slot::Output(i) => i < c.outputs.len(),
        Slot::Internal(i) => i < c.internal.len(),
    }
}

pub open spec fn slots_fit(slots: Seq<Slot>, c: ChipView) -> bool {
    forall|p: int| 0 <= p < slots.len() ==> slot_fits(#[trigger] slots[p], c)
}

pub open spec fn steps_fit(steps: Seq<StepView>, c: ChipView) -> bool {
    forall|k: int|
        0 <= k < steps.len() ==> slots_fit((#[trigger] steps[k]).inputs, c) && slots_fit(
            steps[k].outputs,
            c,
        )
}

pub proof fn lemma_index_bound(ws: Seq<Wire>, name: Seq<char>, i: int)
    requires
        0 <= i,
    ensures
        index_from(ws, name, i) matches Some(k) ==> i <= k < ws.len(),
    decreases ws.len() - i,
{
    if i < ws.len() && ws[i].name@ != name {
        lemma_index_bound(ws, name, i + 1);
    }
}

pub proof fn lemma_slot_fits(c: ChipView, name: String, source: bool)
    ensures
        slot_for(c, name, source) matches Some(sl) ==> slot_fits(sl, c),
{
    lemma_index_bound(c.inputs, name@, 0);
    lemma_index_bound(c.outputs, name@, 0);
    lemma_index_bound(c.internal, name@, 0);
}

pub proof fn lemma_slots_fit(c: ChipView, names: Seq<String>, source: bool, k: int, acc: Seq<Slot>)
    requires
        slots_fit(acc, c),
    ensures
        slots_from(c, names, source, k, acc) matches Ok(v) ==> slots_fit(v, c),
    decreases names.len() - k,
{
    if 0 <= k < names.len() {
        lemma_slot_fits(c, names[k], source);
        if let Some(sl) = slot_for(c, names[k], source) {
            assert(slots_fit(acc.push(sl), c)) by {
                assert forall|p: int| 0 <= p < acc.push(sl).len() implies slot_fits(
                    #[trigger] acc.push(sl)[p],
                    c,
                ) by {
                    if p < acc.len() {
                        assert(acc.push(sl)[p] == acc[p]);
                    }
                }
            }
            lemma_slots_fit(c, names, source, k + 1, acc.push(sl));
        }
    }
}

/// Every slot of a resolved chip names a wire that the chip declares.
pub proof fn lemma_resolve_fits(c: ChipView, k: int, acc: Seq<StepView>)
    requires
        steps_fit(acc, c),
    ensures
        resolve_from(c, k, acc) matches Ok(v) ==> steps_fit(v, c),
    decreases c.instructions.len() - k,
{
    if 0 <= k < c.instructions.len() {
        let i = c.instructions[k];
        lemma_slots_fit(c, i.inputs, true, 0, seq![]);
        lemma_slots_fit(c, i.outputs, false, 0, seq![]);
        if let Ok(st) = resolve_inst(c, i) {
            assert(steps_fit(acc.push(st), c)) by {
                assert forall|q: int| 0 <= q < acc.push(st).len() implies slots_fit(
                    (#[trigger] acc.push(st)[q]).inputs,
                    c,
                ) && slots_fit(acc.push(st)[q].outputs, c) by {
                    if q < acc.len() {
                        assert(acc.push(st)[q] == acc[q]);
                    }
                }
            }
            lemma_resolve_fits(c, k + 1, acc.push(st));
        }
    }
}

pub proof fn lemma_first_ready_bound(steps: Seq<StepView>, done: Seq<bool>, k: int)
    requires
        0 <= k,
    ensures
        first_ready_from(steps, done, k) matches Some(j) ==> k <= j < steps.len(),
    decreases steps.len() - k,
{
    if k < steps.len() && !(!done[k] && !blocked(steps, done, k)) {
        lemma_first_ready_bound(steps, done, k + 1);
    }
}

/// Every position in a schedule is the position of a step.
pub proof fn lemma_schedule_bound(steps: Seq<StepView>, done: Seq<bool>, order: Seq<usize>)
    requires
        forall|i: int| 0 <= i < order.len() ==> order[i] < steps.len(),
    ensures
        schedule_from(steps, done, order) matches Some(o) ==> forall|i: int|
            0 <= i < o.len() ==> o[i] < steps.len(),
    decreases steps.len() - order.len(),
{
    if order.len() < steps.len() {
        lemma_first_ready_bound(steps, done, 0);
        if let Some(k) = first_ready_from(steps, done, 0) {
            let o2 = order.push(k as usize);
            assert forall|i: int| 0 <= i < o2.len() implies o2[i] < steps.len() by {
                if i < order.len() {
                    assert(o2[i] == order[i]);
                }
            }
            lemma_schedule_bound(steps, done.update(k, true), o2);
        }
    }
}

} // verus!
