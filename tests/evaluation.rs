use chipsim::chip::{Chip, Instruction, Wire};
use chipsim::eval::{add_chip, exec, DuplicateChip, EvalError};
use chipsim::netlist::{resolve, schedule, Slot};

fn s(x: &str) -> String {
    String::from(x)
}

fn wires(names: &[&str]) -> Vec<Wire> {
    names.iter().map(|n| Wire { name: s(n), width: 1 }).collect()
}

fn inst(callee: &str, ins: &[&str], outs: &[&str]) -> Instruction {
    Instruction {
        callee: s(callee),
        inputs: ins.iter().map(|n| s(n)).collect(),
        outputs: outs.iter().map(|n| s(n)).collect(),
    }
}

fn chip(name: &str, ins: &[&str], outs: &[&str], internal: &[&str], instrs: Vec<Instruction>) -> Chip {
    Chip { name: s(name), inputs: wires(ins), outputs: wires(outs), internal: wires(internal), instructions: instrs }
}

fn not_chip() -> Chip {
    chip("not", &["A"], &["Z"], &[], vec![inst("nand", &["A", "A"], &["Z"])])
}

fn and_chip() -> Chip {
    chip("and", &["A", "B"], &["Z"], &["X"], vec![inst("nand", &["A", "B"], &["X"]), inst("not", &["X"], &["Z"])])
}

fn library() -> Vec<Chip> {
    vec![not_chip(), and_chip()]
}

#[test]
fn nand_truth_table() {
    let lib: Vec<Chip> = Vec::new();
    for (a, b) in [(false, false), (false, true), (true, false), (true, true)] {
        assert_eq!(exec(&s("nand"), &lib, &vec![a, b]), Ok(vec![!(a && b)]));
    }
    assert_eq!(exec(&s("nand"), &lib, &vec![true, true]), Ok(vec![false]));
    assert_eq!(exec(&s("nand"), &lib, &vec![false, true]), Ok(vec![true]));
}

#[test]
fn not_from_nand() {
    let lib = library();
    assert_eq!(exec(&s("not"), &lib, &vec![false]), Ok(vec![true]));
    assert_eq!(exec(&s("not"), &lib, &vec![true]), Ok(vec![false]));
}

#[test]
fn and_from_nand() {
    let lib = library();
    for (a, b) in [(false, false), (false, true), (true, false), (true, true)] {
        assert_eq!(exec(&s("and"), &lib, &vec![a, b]), Ok(vec![a && b]));
    }
}

#[test]
fn and_with_instructions_out_of_order() {
    let c = chip("and2", &["A", "B"], &["Z"], &["X"], vec![inst("not", &["X"], &["Z"]), inst("nand", &["A", "B"], &["X"])]);
    let lib = vec![not_chip(), c];
    for (a, b) in [(false, false), (false, true), (true, false), (true, true)] {
        assert_eq!(exec(&s("and2"), &lib, &vec![a, b]), Ok(vec![a && b]));
    }
}

#[test]
fn xor_from_four_nands() {
    let c = chip(
        "xor",
        &["A", "B"],
        &["Z"],
        &["M", "P", "Q"],
        vec![
            inst("nand", &["A", "B"], &["M"]),
            inst("nand", &["A", "M"], &["P"]),
            inst("nand", &["M", "B"], &["Q"]),
            inst("nand", &["P", "Q"], &["Z"]),
        ],
    );
    let lib = vec![c];
    for (a, b) in [(false, false), (false, true), (true, false), (true, true)] {
        assert_eq!(exec(&s("xor"), &lib, &vec![a, b]), Ok(vec![a != b]));
    }
}

#[test]
fn nand_arity_error() {
    let lib: Vec<Chip> = Vec::new();
    assert_eq!(
        exec(&s("nand"), &lib, &vec![true]),
        Err(EvalError::Arity { name: s("nand"), expected: 2, actual: 1 })
    );
    assert_eq!(
        exec(&s("nand"), &lib, &vec![true, true, false]),
        Err(EvalError::Arity { name: s("nand"), expected: 2, actual: 3 })
    );
}

#[test]
fn chip_arity_error() {
    let lib = library();
    assert_eq!(
        exec(&s("and"), &lib, &vec![true, true, true]),
        Err(EvalError::Arity { name: s("and"), expected: 2, actual: 3 })
    );
    assert_eq!(exec(&s("not"), &lib, &vec![]), Err(EvalError::Arity { name: s("not"), expected: 1, actual: 0 }));
}

#[test]
fn instruction_arity_error_inside_chip() {
    let c = chip("bad", &["A"], &["Z"], &[], vec![inst("not", &["A", "A"], &["Z"])]);
    let lib = vec![not_chip(), c];
    assert_eq!(exec(&s("bad"), &lib, &vec![true]), Err(EvalError::Arity { name: s("not"), expected: 1, actual: 2 }));
}

#[test]
fn output_count_mismatch() {
    let c = chip("two", &["A"], &["Y", "Z"], &[], vec![inst("nand", &["A", "A"], &["Y", "Z"])]);
    let lib = vec![c];
    assert_eq!(exec(&s("two"), &lib, &vec![true]), Err(EvalError::Arity { name: s("nand"), expected: 1, actual: 2 }));
}

#[test]
fn unknown_chip() {
    let lib = library();
    assert_eq!(exec(&s("or"), &lib, &vec![true, false]), Err(EvalError::UnknownChip(s("or"))));
}

#[test]
fn unknown_callee_inside_chip() {
    let c = chip("c", &["A"], &["Z"], &[], vec![inst("buf", &["A"], &["Z"])]);
    let lib = vec![c];
    assert_eq!(exec(&s("c"), &lib, &vec![true]), Err(EvalError::UnknownChip(s("buf"))));
}

#[test]
fn unresolved_wire_in_last_instruction() {
    let c = chip(
        "c",
        &["A"],
        &["Z"],
        &["X"],
        vec![inst("missing", &["A"], &["X"]), inst("nand", &["X", "Q"], &["Z"])],
    );
    let lib = vec![c];
    assert_eq!(exec(&s("c"), &lib, &vec![true]), Err(EvalError::UnresolvedWire { chip: s("c"), name: s("Q") }));
}

#[test]
fn unresolved_wire_in_first_instruction() {
    let c = chip("c", &["A"], &["Z"], &[], vec![inst("nand", &["A", "A"], &["W"]), inst("nand", &["A", "A"], &["Z"])]);
    let lib = vec![c];
    assert_eq!(exec(&s("c"), &lib, &vec![false]), Err(EvalError::UnresolvedWire { chip: s("c"), name: s("W") }));
}

#[test]
fn output_name_is_not_a_source() {
    let c = chip("c", &["A"], &["Z"], &[], vec![inst("nand", &["Z", "A"], &["Z"])]);
    let lib = vec![c];
    assert_eq!(exec(&s("c"), &lib, &vec![false]), Err(EvalError::UnresolvedWire { chip: s("c"), name: s("Z") }));
}

#[test]
fn internal_cycle_rejected() {
    let c = chip(
        "loop",
        &["A"],
        &["Z"],
        &["X", "Y"],
        vec![
            inst("nand", &["Y", "Y"], &["X"]),
            inst("nand", &["X", "X"], &["Y"]),
            inst("nand", &["A", "X"], &["Z"]),
        ],
    );
    let lib = vec![c];
    assert_eq!(exec(&s("loop"), &lib, &vec![true]), Err(EvalError::CombinationalCycle(s("loop"))));
}

#[test]
fn self_loop_rejected() {
    let c = chip("latch", &["A"], &["Z"], &["X"], vec![inst("nand", &["A", "X"], &["X"]), inst("nand", &["X", "X"], &["Z"])]);
    let lib = vec![c];
    assert_eq!(exec(&s("latch"), &lib, &vec![true]), Err(EvalError::CombinationalCycle(s("latch"))));
}

#[test]
fn recursive_chip_rejected() {
    let a = chip("a", &["A"], &["Z"], &[], vec![inst("b", &["A"], &["Z"])]);
    let b = chip("b", &["A"], &["Z"], &[], vec![inst("a", &["A"], &["Z"])]);
    let lib = vec![a, b];
    assert_eq!(exec(&s("a"), &lib, &vec![true]), Err(EvalError::CombinationalCycle(s("a"))));
}

#[test]
fn unwritten_output_stays_false() {
    let c = chip("c", &["A"], &["Y", "Z"], &[], vec![inst("nand", &["A", "A"], &["Z"])]);
    let lib = vec![c];
    assert_eq!(exec(&s("c"), &lib, &vec![false]), Ok(vec![false, true]));
}

#[test]
fn chip_used_twice_is_evaluated_independently() {
    let c = chip(
        "both",
        &["A", "B"],
        &["Y", "Z"],
        &[],
        vec![inst("not", &["A"], &["Y"]), inst("not", &["B"], &["Z"])],
    );
    let lib = vec![not_chip(), c];
    assert_eq!(exec(&s("both"), &lib, &vec![true, false]), Ok(vec![false, true]));
}

#[test]
fn resolve_maps_names_to_slots() {
    let steps = resolve(&and_chip()).unwrap();
    assert_eq!(steps.len(), 2);
    assert_eq!(steps[0].inputs, vec![Slot::Input(0), Slot::Input(1)]);
    assert_eq!(steps[0].outputs, vec![Slot::Internal(0)]);
    assert_eq!(steps[1].inputs, vec![Slot::Internal(0)]);
    assert_eq!(steps[1].outputs, vec![Slot::Output(0)]);
}

#[test]
fn schedule_orders_by_dependency() {
    let c = chip("and2", &["A", "B"], &["Z"], &["X"], vec![inst("not", &["X"], &["Z"]), inst("nand", &["A", "B"], &["X"])]);
    let steps = resolve(&c).unwrap();
    assert_eq!(schedule(&steps), Some(vec![1, 0]));
    let steps = resolve(&and_chip()).unwrap();
    assert_eq!(schedule(&steps), Some(vec![0, 1]));
}

#[test]
fn add_chip_accepts_new_name() {
    let mut lib = vec![not_chip()];
    assert_eq!(add_chip(&mut lib, and_chip()), Ok(()));
    assert_eq!(lib.len(), 2);
    assert_eq!(lib[1].name, "and");
}

#[test]
fn add_chip_rejects_duplicate_name() {
    let mut lib = library();
    let other = chip("not", &["A"], &["Z"], &[], vec![inst("nand", &["A", "A"], &["Z"])]);
    assert_eq!(add_chip(&mut lib, other), Err(DuplicateChip { name: s("not") }));
    assert_eq!(lib, library());
}

#[test]
fn reader_waits_for_every_writer_of_its_wire() {
    let c = chip(
        "w",
        &["A", "B"],
        &["Z"],
        &["X"],
        vec![inst("nand", &["A", "A"], &["X"]), inst("nand", &["X", "X"], &["Z"]), inst("nand", &["B", "B"], &["X"])],
    );
    let steps = resolve(&c).unwrap();
    assert_eq!(schedule(&steps), Some(vec![0, 2, 1]));
    let lib = vec![c];
    // Z == !(!B && !B) == B, whatever A is.
    assert_eq!(exec(&s("w"), &lib, &vec![true, false]), Ok(vec![false]));
    assert_eq!(exec(&s("w"), &lib, &vec![false, true]), Ok(vec![true]));
}

#[test]
fn schedule_is_none_for_cycle() {
    let c = chip("loop", &["A"], &["Z"], &["X", "Y"], vec![inst("nand", &["Y", "A"], &["X"]), inst("nand", &["X", "A"], &["Y"])]);
    let steps = resolve(&c).unwrap();
    assert_eq!(schedule(&steps), None);
}
