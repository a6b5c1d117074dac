use vstd::prelude::*;

use crate::chip::Chip;
use crate::netlist::{
    lemma_resolve_fits, lemma_schedule_bound, resolve, resolve_spec, schedule, schedule_spec,
    slot_fits, slots_fit, steps_fit, views, Slot, Step, StepView,
};
use crate::chip::ChipView;

verus! {

/// Why an evaluation failed.
#[derive(Clone, Debug, PartialEq, Eq)]
pub enum EvalError {
    /// An instruction calls a chip that the library does not hold.
    UnknownChip(String),
    /// An input or output list does not have the length that its chip
    /// declares.
    Arity { name: String, expected: usize, actual: usize },
    /// An instruction names a wire that its chip does not declare where the
    /// name is used.
    UnresolvedWire { chip: String, name: String },
    /// A chip takes part in its own evaluation, or its instructions cannot
    /// be ordered so that each wire is produced before it is read.
    CombinationalCycle(String),
}

/// The name of the built-in two-input NAND gate.
pub open spec fn is_primitive(name: String) -> bool {
    name@ == seq!['n', 'a', 'n', 'd']
}

/// The position of the first library chip, from `i` on, called `name`.
pub open spec fn chip_index_from(lib: Seq<Chip>, name: Seq<char>, i: int) -> Option<int>
    decreases lib.len() - i,
{
    if i < 0 || i >= lib.len() {
        None
    } else if lib[i].name@ == name {
        Some(i)
    } else {
        chip_index_from(lib, name, i + 1)
    }
}

pub open spec fn find_chip(lib: Seq<Chip>, name: Seq<char>) -> Option<int> {
    chip_index_from(lib, name, 0)
}

/// How many of the first `n` library positions are not on `stack`.
pub open spec fn unvisited(n: int, stack: Seq<usize>) -> nat
    decreases n,
{
    if n <= 0 {
        0
    } else {
        unvisited(n - 1, stack) + if stack.contains((n - 1) as usize) {
            0nat
        } else {
            1nat
        }
    }
}

pub open spec fn read_slot(ins: Seq<bool>, crs: Seq<bool>, sl: Slot) -> bool {
    match sl {
        Slot::Input(i) => ins[i as int],
        Slot::Internal(i) => crs[i as int],
        Slot::Output(_) => false,
    }
}

/// The bits that `slots` name, read from the chip's inputs `ins` and
/// internal wires `crs`.
pub open spec fn gather_spec(ins: Seq<bool>, crs: Seq<bool>, slots: Seq<Slot>) -> Seq<bool> {
    Seq::new(slots.len(), |p: int| read_slot(ins, crs, slots[p]))
}

/// Writes `vals[k]` into slot `slots[k]`, for each `k` from `k` on, in
/// order, into the outputs `outs` and internal wires `crs`.
pub open spec fn write_from(outs: Seq<bool>, crs: Seq<bool>, slots: Seq<Slot>, vals: Seq<bool>, k: int) -> (Seq<bool>, Seq<bool>)
    decreases slots.len() - k,
{
    if k < 0 || k >= slots.len() {
        (outs, crs)
    } else {
        match slots[k] {
            Slot::Output(i) => write_from(outs.update(i as int, vals[k]), crs, slots, vals, k + 1),
            Slot::Internal(i) => write_from(outs, crs.update(i as int, vals[k]), slots, vals, k + 1),
            Slot::Input(_) => write_from(outs, crs, slots, vals, k + 1),
        }
    }
}

pub open spec fn zeros(n: nat) -> Seq<bool> {
    Seq::new(n, |i: int| false)
}

/// Evaluates `name` on `ins` while the chips at the positions on `stack`
/// are being evaluated further up.
pub open spec fn eval_spec(name: String, lib: Seq<Chip>, ins: Seq<bool>, stack: Seq<usize>) -> Result<Seq<bool>, EvalError>
    decreases unvisited(lib.len() as int, stack), 0int,
{
    if is_primitive(name) {
        if ins.len() != 2 {
            Err(EvalError::Arity { name, expected: 2, actual: ins.len() as usize })
        } else {
            Ok(seq![!(ins[0] && ins[1])])
        }
    } else {
        match find_chip(lib, name@) {
            None => Err(EvalError::UnknownChip(name)),
            Some(idx) => if stack.contains(idx as usize) {
                Err(EvalError::CombinationalCycle(name))
            } else if ins.len() != lib[idx]@.inputs.len() {
                Err(
                    EvalError::Arity {
                        name,
                        expected: lib[idx]@.inputs.len() as usize,
                        actual: ins.len() as usize,
                    },
                )
            } else {
                match resolve_spec(lib[idx]@) {
                    Err(e) => Err(e),
                    Ok(steps) => match schedule_spec(steps) {
                        None => Err(EvalError::CombinationalCycle(lib[idx].name)),
                        Some(order) => {
                            proof {
                                lemma_find_chip_bound(lib, name@, 0);
                                lemma_unvisited_push(lib.len() as int, stack, idx);
                            }
                            run_from(
                                lib,
                                stack.push(idx as usize),
                                ins,
                                steps,
                                order,
                                0,
                                zeros(lib[idx]@.outputs.len()),
                                zeros(lib[idx]@.internal.len()),
                            )
                        },
                    },
                }
            },
        }
    }
}

/// Runs the steps at positions `order[i..]` on the chip inputs `ins`, with
/// outputs `outs` and internal wires `crs` as they stand, and returns the
/// outputs.
pub open spec fn run_from(
    lib: Seq<Chip>,
    stack: Seq<usize>,
    ins: Seq<bool>,
    steps: Seq<StepView>,
    order: Seq<usize>,
    i: int,
    outs: Seq<bool>,
    crs: Seq<bool>,
) -> Result<Seq<bool>, EvalError>
    decreases unvisited(lib.len() as int, stack), order.len() - i + 1,
{
    if i < 0 || i >= order.len() {
        Ok(outs)
    } else {
        let st = steps[order[i] as int];
        match eval_spec(st.callee, lib, gather_spec(ins, crs, st.inputs), stack) {
            Err(e) => Err(e),
            Ok(res) => if res.len() != st.outputs.len() {
                Err(
                    EvalError::Arity {
                        name: st.callee,
                        expected: res.len() as usize,
                        actual: st.outputs.len() as usize,
                    },
                )
            } else {
                let (o2, c2) = write_from(outs, crs, st.outputs, res, 0);
                run_from(lib, stack, ins, steps, order, i + 1, o2, c2)
            },
        }
    }
}

/// What a top-level evaluation returns.
pub open spec fn evaluate_spec(name: String, lib: Seq<Chip>, ins: Seq<bool>) -> Result<Seq<bool>, EvalError> {
    eval_spec(name, lib, ins, seq![])
}

pub proof fn lemma_find_chip_bound(lib: Seq<Chip>, name: Seq<char>, i: int)
    requires
        0 <= i,
    ensures
        chip_index_from(lib, name, i) matches Some(k) ==> i <= k < lib.len() && lib[k].name@ == name,
    decreases lib.len() - i,
{
    if i < lib.len() && lib[i].name@ != name {
        lemma_find_chip_bound(lib, name, i + 1);
    }
}

pub proof fn lemma_unvisited_push(n: int, stack: Seq<usize>, idx: int)
    requires
        0 <= idx < n,
        !stack.contains(idx as usize),
    ensures
        unvisited(n, stack.push(idx as usize)) < unvisited(n, stack),
    decreases n,
{
    let pushed = stack.push(idx as usize);
    assert(pushed.contains(idx as usize)) by {
        assert(pushed[stack.len() as int] == idx as usize);
    }
    if stack.contains((n - 1) as usize) {
        let j = choose|j: int| 0 <= j < stack.len() && stack[j] == (n - 1) as usize;
        assert(pushed[j] == (n - 1) as usize);
    }
    if idx < n - 1 {
        lemma_unvisited_push(n - 1, stack, idx);
    } else {
        lemma_unvisited_mono(n - 1, stack, idx as usize);
    }
}

pub proof fn lemma_unvisited_mono(n: int, stack: Seq<usize>, x: usize)
    ensures
        unvisited(n, stack.push(x)) <= unvisited(n, stack),
    decreases n,
{
    if n > 0 {
        if stack.contains((n - 1) as usize) {
            let j = choose|j: int| 0 <= j < stack.len() && stack[j] == (n - 1) as usize;
            assert(stack.push(x)[j] == (n - 1) as usize);
        }
        lemma_unvisited_mono(n - 1, stack, x);
    }
}

/// Pairs an exec result with its bits.
pub open spec fn bits(r: Result<Vec<bool>, EvalError>) -> Result<Seq<bool>, EvalError> {
    match r {
        Ok(v) => Ok(v@),
        Err(e) => Err(e),
    }
}

fn is_primitive_name(name: &String) -> (r: bool)
    ensures
        r == is_primitive(*name),
{
    let nand: String = "nand".to_owned();
    proof {
        reveal_strlit("nand");
        assert(nand@ =~= seq!['n', 'a', 'n', 'd']);
    }
    *name == nand
}

fn chip_index(lib: &Vec<Chip>, name: &String) -> (r: Option<usize>)
    ensures
        match r {
            Some(i) => find_chip(lib@, name@) == Some(i as int),
            None => find_chip(lib@, name@) is None,
        },
{
    let mut i: usize = 0;
    while i < lib.len()
        invariant
            i <= lib@.len(),
            find_chip(lib@, name@) == chip_index_from(lib@, name@, i as int),
        decreases lib.len() - i,
    {
        if lib[i].name == *name {
            return Some(i);
        }
        i = i + 1;
    }
    None
}

fn on_stack(stack: &Vec<usize>, idx: usize) -> (r: bool)
    ensures
        r == stack@.contains(idx),
{
    let mut i: usize = 0;
    while i < stack.len()
        invariant
            i <= stack@.len(),
            forall|j: int| 0 <= j < i ==> stack@[j] != idx,
        decreases stack.len() - i,
    {
        if stack[i] == idx {
            return true;
        }
        i = i + 1;
    }
    false
}

fn zero_bits(n: usize) -> (r: Vec<bool>)
    ensures
        r@ == zeros(n as nat),
{
    let mut v: Vec<bool> = Vec::new();
    while v.len() < n
        invariant
            v@.len() <= n,
            forall|i: int| 0 <= i < v@.len() ==> !v@[i],
        decreases n - v.len(),
    {
        v.push(false);
    }
    assert(v@ =~= zeros(n as nat));
    v
}

fn gather(ins: &Vec<bool>, crs: &Vec<bool>, slots: &Vec<Slot>, c: Ghost<ChipView>) -> (r: Vec<bool>)
    requires
        slots_fit(slots@, c@),
        ins@.len() == c@.inputs.len(),
        crs@.len() == c@.internal.len(),
    ensures
        r@ == gather_spec(ins@, crs@, slots@),
{
    let mut v: Vec<bool> = Vec::new();
    let mut p: usize = 0;
    while p < slots.len()
        invariant
            p <= slots@.len(),
            slots_fit(slots@, c@),
            ins@.len() == c@.inputs.len(),
            crs@.len() == c@.internal.len(),
            v@ =~= gather_spec(ins@, crs@, slots@.subrange(0, p as int)),
        decreases slots.len() - p,
    {
        assert(slot_fits(slots@[p as int], c@));
        let b = match slots[p] {
            Slot::Input(i) => ins[i],
            Slot::Internal(i) => crs[i],
            Slot::Output(_) => false,
        };
        v.push(b);
        p = p + 1;
    }
    assert(slots@.subrange(0, p as int) =~= slots@);
    v
}

fn write_back(outs: &mut Vec<bool>, crs: &mut Vec<bool>, slots: &Vec<Slot>, vals: &Vec<bool>, c: Ghost<ChipView>)
    requires
        slots_fit(slots@, c@),
        vals@.len() == slots@.len(),
        old(outs)@.len() == c@.outputs.len(),
        old(crs)@.len() == c@.internal.len(),
    ensures
        (final(outs)@, final(crs)@) == write_from(old(outs)@, old(crs)@, slots@, vals@, 0),
        final(outs)@.len() == c@.outputs.len(),
        final(crs)@.len() == c@.internal.len(),
{
    let mut k: usize = 0;
    while k < slots.len()
        invariant
            k <= slots@.len(),
            slots_fit(slots@, c@),
            vals@.len() == slots@.len(),
            outs@.len() == c@.outputs.len(),
            crs@.len() == c@.internal.len(),
            write_from(old(outs)@, old(crs)@, slots@, vals@, 0) == write_from(
                outs@,
                crs@,
                slots@,
                vals@,
                k as int,
            ),
        decreases slots.len() - k,
    {
        assert(slot_fits(slots@[k as int], c@));
        match slots[k] {
            Slot::Output(i) => {
                outs[i] = vals[k];
            },
            Slot::Internal(i) => {
                crs[i] = vals[k];
            },
            Slot::Input(_) => {},
        }
        k = k + 1;
    }
}

fn run_steps(
    lib: &Vec<Chip>,
    ins: &Vec<bool>,
    steps: &Vec<Step>,
    order: &Vec<usize>,
    stack: &mut Vec<usize>,
    chip: &Chip,
) -> (r: Result<Vec<bool>, EvalError>)
    requires
        steps_fit(views(steps@), chip@),
        forall|i: int| 0 <= i < order@.len() ==> order@[i] < steps@.len(),
        ins@.len() == chip@.inputs.len(),
    ensures
        final(stack)@ == old(stack)@,
        bits(r) == run_from(
            lib@,
            old(stack)@,
            ins@,
            views(steps@),
            order@,
            0,
            zeros(chip@.outputs.len()),
            zeros(chip@.internal.len()),
        ),
    decreases unvisited(lib@.len() as int, stack@), 1int,
{
    let ghost vs = views(steps@);
    let ghost c = chip@;
    let mut outs = zero_bits(chip.outputs.len());
    let mut crs = zero_bits(chip.internal.len());
    let mut i: usize = 0;
    while i < order.len()
        invariant
            i <= order@.len(),
            vs == views(steps@),
            c == chip@,
            stack@ == old(stack)@,
            steps_fit(vs, chip@),
            forall|j: int| 0 <= j < order@.len() ==> order@[j] < steps@.len(),
            ins@.len() == chip@.inputs.len(),
            outs@.len() == chip@.outputs.len(),
            crs@.len() == chip@.internal.len(),
            run_from(lib@, stack@, ins@, vs, order@, 0, zeros(chip@.outputs.len()), zeros(chip@.internal.len()))
                == run_from(lib@, stack@, ins@, vs, order@, i as int, outs@, crs@),
        decreases order.len() - i,
    {
        let st: &Step = &steps[order[i]];
        assert(vs[order@[i as int] as int] == st@);
        let args = gather(ins, &crs, &st.inputs, Ghost(c));
        let res = match eval_in(&st.callee, lib, &args, stack) {
            Ok(v) => v,
            Err(e) => return Err(e),
        };
        if res.len() != st.outputs.len() {
            return Err(
                EvalError::Arity {
                    name: st.callee.clone(),
                    expected: res.len(),
                    actual: st.outputs.len(),
                },
            );
        }
        write_back(&mut outs, &mut crs, &st.outputs, &res, Ghost(c));
        i = i + 1;
    }
    Ok(outs)
}

fn eval_in(name: &String, lib: &Vec<Chip>, ins: &Vec<bool>, stack: &mut Vec<usize>) -> (r: Result<Vec<bool>, EvalError>)
    ensures
        final(stack)@ == old(stack)@,
        bits(r) == eval_spec(*name, lib@, ins@, old(stack)@),
    decreases unvisited(lib@.len() as int, stack@), 0int,
{
    if is_primitive_name(name) {
        if ins.len() != 2 {
            return Err(EvalError::Arity { name: name.clone(), expected: 2, actual: ins.len() });
        }
        let out: Vec<bool> = vec![!(ins[0] && ins[1])];
        assert(out@ =~= seq![!(ins@[0] && ins@[1])]);
        return Ok(out);
    }
    let idx = match chip_index(lib, name) {
        Some(i) => i,
        None => return Err(EvalError::UnknownChip(name.clone())),
    };
    proof {
        lemma_find_chip_bound(lib@, name@, 0);
    }
    if on_stack(stack, idx) {
        return Err(EvalError::CombinationalCycle(name.clone()));
    }
    let c: &Chip = &lib[idx];
    if ins.len() != c.inputs.len() {
        return Err(EvalError::Arity { name: name.clone(), expected: c.inputs.len(), actual: ins.len() });
    }
    let steps = match resolve(c) {
        Ok(v) => v,
        Err(e) => return Err(e),
    };
    let order = match schedule(&steps) {
        Some(o) => o,
        None => return Err(EvalError::CombinationalCycle(c.name.clone())),
    };
    proof {
        lemma_resolve_fits(c@, 0, seq![]);
        lemma_schedule_bound(views(steps@), Seq::new(steps@.len(), |i: int| false), seq![]);
        lemma_unvisited_push(lib@.len() as int, stack@, idx as int);
    }
    stack.push(idx);
    let r = run_steps(lib, ins, &steps, &order, stack, c);
    stack.pop();
    r
}

/// Simulates chip `name` of `library` (or the built-in `nand` gate) on the
/// input bits `inputs` and returns its output bits.
///
/// Wire names are resolved first: an instruction input against the chip's
/// inputs, then its internal wires; an instruction output against its
/// outputs, then its internal wires. The instructions then run in dependency
/// order, not in declaration order: each step that reads an internal wire
/// runs after every step that writes it, so where one internal wire has
/// several writers its readers see the value of the last of them to run
/// (see `schedule_spec`). Internal wires and outputs that nothing writes
/// read as `false`.
pub fn exec(name: &String, library: &Vec<Chip>, inputs: &Vec<bool>) -> (r: Result<Vec<bool>, EvalError>)
    ensures
        bits(r) == evaluate_spec(*name, library@, inputs@),
{
    let mut stack: Vec<usize> = Vec::new();
    eval_in(name, library, inputs, &mut stack)
}

/// A chip that a library already holds under the same name.
#[derive(Clone, Debug, PartialEq, Eq)]
pub struct DuplicateChip {
    pub name: String,
}

/// Adds `chip` to `library`, whose chip names stay unique: where a chip of
/// that name is already there, the library is left as it was.
pub fn add_chip(library: &mut Vec<Chip>, chip: Chip) -> (r: Result<(), DuplicateChip>)
    ensures
        find_chip(old(library)@, chip.name@) is None ==> r is Ok && final(library)@ == old(library)@.push(
            chip,
        ),
        find_chip(old(library)@, chip.name@) is Some ==> r == Err::<(), DuplicateChip>(
            DuplicateChip { name: chip.name },
        ) && final(library)@ == old(library)@,
{
    match chip_index(library, &chip.name) {
        Some(_) => Err(DuplicateChip { name: chip.name }),
        None => {
            library.push(chip);
            Ok(())
        },
    }
}

} // verus!
