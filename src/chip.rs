use vstd::prelude::*;

verus! {

/// A named wire of a chip, with its declared bit width. The evaluator
/// carries one bit per wire and does not consult the width: multi-bit
/// buses are not simulated.
#[derive(Clone, Debug, PartialEq, Eq)]
pub struct Wire {
    pub name: String,
    pub width: u64,
}

/// One call site in a chip body: the callee and the names of the wires
/// bound to its inputs and to its outputs, in order.
#[derive(Clone, Debug, PartialEq, Eq)]
pub struct Instruction {
    pub callee: String,
    pub inputs: Vec<String>,
    pub outputs: Vec<String>,
}

pub ghost struct InstrView {
    pub callee: String,
    pub inputs: Seq<String>,
    pub outputs: Seq<String>,
}

impl View for Instruction {
    type V = InstrView;

    open spec fn view(&self) -> InstrView {
        InstrView { callee: self.callee, inputs: self.inputs@, outputs: self.outputs@ }
    }
}

/// A named component: its input, output and internal wires and its
/// instructions, each list in declaration order.
#[derive(Clone, Debug, PartialEq, Eq)]
pub struct Chip {
    pub name: String,
    pub inputs: Vec<Wire>,
    pub outputs: Vec<Wire>,
    pub internal: Vec<Wire>,
    pub instructions: Vec<Instruction>,
}

pub ghost struct ChipView {
    pub name: String,
    pub inputs: Seq<Wire>,
    pub outputs: Seq<Wire>,
    pub internal: Seq<Wire>,
    pub instructions: Seq<InstrView>,
}

impl View for Chip {
    type V = ChipView;

    open spec fn view(&self) -> ChipView {
        ChipView {
            name: self.name,
            inputs: self.inputs@,
            outputs: self.outputs@,
            internal: self.internal@,
            instructions: self.instructions@.map_values(|i: Instruction| i@),
        }
    }
}

} // verus!
