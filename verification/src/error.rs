//! Why planning steps stop.

use crate::word::module::{ModuleView, WordModule};
use crate::word::types::{MemoryId, SourceSpan, ValueId};
use vstd::prelude::*;
use vstd::string::StringExecFns;

verus! {

/// A fact about a module that the planner relies on and found broken.
#[derive(Clone, Copy, PartialEq, Eq, Structural, Debug)]
pub enum Invariant {
    UnknownValue,
    UnknownOperation,
    UnknownSignal,
    UnknownMemory,
    UnknownPort,
    UnknownOperator,
    UnknownCandidate,
    WidthMismatch,
    MissingBit,
    CombinationalCycle,
    NotEncoded,
    BrokenSource,
    BrokenSelection,
    UnalignedMemoryImplementations,
    BrokenCheckpoint,
    BrokenManifest,
    NoCandidate,
    MissingBinding,
    DynamicTarget,
    UnboundedOffset,
    MisalignedRegions,
    UnknownMacro,
    IncompatibleMacro,
    ConflictingPin,
}

/// What a provider got wrong.
#[derive(Clone, Copy, PartialEq, Eq, Structural, Debug)]
pub enum Invalid {
    UnknownRecipe,
    RepeatedRecipe,
}

/// What is not supported: an operation, or a memory as registers.
#[derive(Clone, Copy, PartialEq, Eq, Structural, Debug)]
pub enum Unsupported {
    Operation,
    NoWritableStorage(MemoryId),
    SharedWriteClocks(MemoryId),
}

/// A resource whose identifiers are used up.
#[derive(Clone, Copy, PartialEq, Eq, Structural, Debug)]
pub enum Resource {
    Values,
    Operations,
    Signals,
    Connects,
    LogicNodes,
    Inputs,
    Width,
    Offset,
    Operators,
    Candidates,
}

/// A bit of a value on a combinational loop, where the value comes from and the
/// signal that it reads.
#[derive(Clone, PartialEq, Eq, Debug)]
pub struct CycleNode {
    pub value: ValueId,
    pub bit: u32,
    pub source: SourceSpan,
    pub signal: Option<String>,
}

/// A combinational loop of a module: every node is worked out from the next one,
/// and the last one from the first.
#[derive(Clone, PartialEq, Eq, Debug)]
pub struct CombinationalCycle {
    pub module: String,
    pub path: Vec<CycleNode>,
}

impl CombinationalCycle {
    /// The nodes of the loop, each once.
    pub fn nodes(&self) -> (nodes: &Vec<CycleNode>)
        ensures
            *nodes == self.path,
    {
        &self.path
    }

    /// The values along the loop, back to the first one.
    pub open spec fn values(&self) -> Seq<ValueId> {
        if self.path@.len() == 0 {
            seq![]
        } else {
            self.path@.map_values(|node: CycleNode| node.value).push(self.path@[0].value)
        }
    }

    /// The values along the loop, back to the first one.
    pub fn debug_values(&self) -> (values: Vec<ValueId>)
        ensures
            values@ == self.values(),
    {
        let mut values: Vec<ValueId> = Vec::new();
        let mut i: usize = 0;
        while i < self.path.len()
            invariant
                i <= self.path@.len(),
                values@ =~= self.path@.take(i as int).map_values(|node: CycleNode| node.value),
            decreases self.path.len() - i,
        {
            values.push(self.path[i].value);
            i += 1;
        }
        assert(self.path@.take(i as int) =~= self.path@);
        if self.path.len() > 0 {
            values.push(self.path[0].value);
        }
        assert(values@ =~= self.values());
        values
    }

    /// The code of the diagnostic of a loop.
    pub fn code(&self) -> (code: &'static str)
        ensures
            code@ == "OPT-SYN-001"@,
    {
        "OPT-SYN-001"
    }
}

impl CycleNode {
    /// What a diagnostic says of a node.
    pub open spec fn label_text(&self) -> Seq<char> {
        match self.signal {
            Some(name) => "signal '"@ + name@ + "' is part of the loop"@,
            None => "an operation is part of the loop"@,
        }
    }

    /// What a diagnostic says of a node.
    pub fn label(&self) -> (text: String)
        ensures
            text@ == self.label_text(),
    {
        let mut text = String::new();
        match &self.signal {
            Some(name) => {
                text.append("signal '");
                text.append(name.as_str());
                text.append("' is part of the loop");
            },
            None => {
                text.append("an operation is part of the loop");
            },
        }
        assert(text@ =~= self.label_text());
        text
    }
}

/// Why a planning step stopped.
#[derive(Clone, PartialEq, Eq, Debug)]
pub enum SynthError {
    Invariant(Invariant),
    Capacity(Resource),
    Invalid(Invalid),
    Unsupported(Unsupported),
    CombinationalCycle(CombinationalCycle),
}

impl Invariant {
    /// What is said of a broken fact.
    pub open spec fn text(self) -> Seq<char> {
        match self {
            Invariant::UnknownValue => "a value is unknown"@,
            Invariant::UnknownOperation => "an operation is unknown"@,
            Invariant::UnknownSignal => "a signal is unknown"@,
            Invariant::UnknownMemory => "a memory is unknown"@,
            Invariant::UnknownPort => "a port is unknown"@,
            Invariant::UnknownOperator => "an operator is unknown"@,
            Invariant::UnknownCandidate => "a candidate is unknown"@,
            Invariant::WidthMismatch => "a type does not match what it is used for"@,
            Invariant::MissingBit => "a value has no such bit"@,
            Invariant::CombinationalCycle => "dependencies run in a circle"@,
            Invariant::NotEncoded => "a value was not encoded"@,
            Invariant::BrokenSource => "a source of a value is broken"@,
            Invariant::BrokenSelection => "a selection does not match what it is for"@,
            Invariant::UnalignedMemoryImplementations => "regional memory implementation payload is not 32-bit aligned"@,
            Invariant::BrokenCheckpoint => "a checkpoint is broken"@,
            Invariant::BrokenManifest => "a manifest is broken"@,
            Invariant::NoCandidate => "there is no candidate"@,
            Invariant::MissingBinding => "a binding is missing"@,
            Invariant::DynamicTarget => "a target is not static"@,
            Invariant::UnboundedOffset => "an offset has no bound"@,
            Invariant::MisalignedRegions => "regions do not match the operations"@,
            Invariant::UnknownMacro => "a memory macro is unknown"@,
            Invariant::IncompatibleMacro => "selected memory macro is incompatible with the memory"@,
            Invariant::ConflictingPin => "memory macro pin is bound to conflicting source values"@,
        }
    }

    fn describe(&self) -> (text: &'static str)
        ensures
            text@ == self.text(),
    {
        match *self {
            Invariant::UnknownValue => "a value is unknown",
            Invariant::UnknownOperation => "an operation is unknown",
            Invariant::UnknownSignal => "a signal is unknown",
            Invariant::UnknownMemory => "a memory is unknown",
            Invariant::UnknownPort => "a port is unknown",
            Invariant::UnknownOperator => "an operator is unknown",
            Invariant::UnknownCandidate => "a candidate is unknown",
            Invariant::WidthMismatch => "a type does not match what it is used for",
            Invariant::MissingBit => "a value has no such bit",
            Invariant::CombinationalCycle => "dependencies run in a circle",
            Invariant::NotEncoded => "a value was not encoded",
            Invariant::BrokenSource => "a source of a value is broken",
            Invariant::BrokenSelection => "a selection does not match what it is for",
            Invariant::UnalignedMemoryImplementations => "regional memory implementation payload is not 32-bit aligned",
            Invariant::BrokenCheckpoint => "a checkpoint is broken",
            Invariant::BrokenManifest => "a manifest is broken",
            Invariant::NoCandidate => "there is no candidate",
            Invariant::MissingBinding => "a binding is missing",
            Invariant::DynamicTarget => "a target is not static",
            Invariant::UnboundedOffset => "an offset has no bound",
            Invariant::MisalignedRegions => "regions do not match the operations",
            Invariant::UnknownMacro => "a memory macro is unknown",
            Invariant::IncompatibleMacro => "selected memory macro is incompatible with the memory",
            Invariant::ConflictingPin => "memory macro pin is bound to conflicting source values",
        }
    }
}

impl Invalid {
    pub open spec fn text(self) -> Seq<char> {
        match self {
            Invalid::UnknownRecipe => "a resource enumerated an unknown recipe"@,
            Invalid::RepeatedRecipe => "a resource enumerated a recipe more than once"@,
        }
    }

    fn describe(&self) -> (text: &'static str)
        ensures
            text@ == self.text(),
    {
        match *self {
            Invalid::UnknownRecipe => "a resource enumerated an unknown recipe",
            Invalid::RepeatedRecipe => "a resource enumerated a recipe more than once",
        }
    }
}

impl Unsupported {
    pub open spec fn text(self) -> Seq<char> {
        match self {
            Unsupported::Operation => "unsupported word operation"@,
            Unsupported::NoWritableStorage(_) => "memory has no writable storage implementation"@,
            Unsupported::SharedWriteClocks(_) =>
                "register-bank memory has multiple write clocks that may update the same word"@,
        }
    }

    fn describe(&self) -> (text: &'static str)
        ensures
            text@ == self.text(),
    {
        match *self {
            Unsupported::Operation => "unsupported word operation",
            Unsupported::NoWritableStorage(_) => "memory has no writable storage implementation",
            Unsupported::SharedWriteClocks(_) => {
                "register-bank memory has multiple write clocks that may update the same word"
            },
        }
    }
}

impl SynthError {
    /// A short description for a diagnostic.
    pub open spec fn text(self) -> Seq<char> {
        match self {
            SynthError::Invariant(found) => found.text(),
            SynthError::Capacity(_) => "word capacity exceeded"@,
            SynthError::Invalid(found) => found.text(),
            SynthError::Unsupported(found) => found.text(),
            SynthError::CombinationalCycle(cycle) => "combinational loop detected in module '"@
                + cycle.module@ + "'"@,
        }
    }

    /// A short description that names the memory, where one is at fault.
    pub open spec fn text_in(self, module: ModuleView) -> Seq<char> {
        match self {
            SynthError::Unsupported(Unsupported::NoWritableStorage(memory)) => match memory_name(
                module,
                memory,
            ) {
                Some(name) => "memory '"@ + name + "' has no writable storage implementation"@,
                None => self.text(),
            },
            SynthError::Unsupported(Unsupported::SharedWriteClocks(memory)) => match memory_name(
                module,
                memory,
            ) {
                Some(name) => "register-bank memory '"@ + name
                    + "' has multiple write clocks that may update the same word"@,
                None => self.text(),
            },
            _ => self.text(),
        }
    }

    pub fn message(&self) -> (text: String)
        ensures
            text@ == self.text(),
    {
        let mut text = String::new();
        if let SynthError::CombinationalCycle(cycle) = self {
            text.append("combinational loop detected in module '");
            text.append(cycle.module.as_str());
            text.append("'");
            assert(text@ =~= self.text());
            return text;
        }
        let plain: &'static str = match self {
            SynthError::Invariant(found) => found.describe(),
            SynthError::Capacity(_) => "word capacity exceeded",
            SynthError::Invalid(found) => found.describe(),
            SynthError::Unsupported(found) => found.describe(),
            SynthError::CombinationalCycle(_) => "",
        };
        text.append(plain);
        assert(text@ =~= self.text());
        text
    }

    pub fn message_in(&self, module: &WordModule) -> (text: String)
        ensures
            text@ == self.text_in(module@),
    {
        let mut text = String::new();
        match self {
            SynthError::Unsupported(Unsupported::NoWritableStorage(memory)) => {
                if let Some(name) = name_of(module, *memory) {
                    text.append("memory '");
                    text.append(name.as_str());
                    text.append("' has no writable storage implementation");
                    assert(text@ =~= self.text_in(module@));
                    return text;
                }
            },
            SynthError::Unsupported(Unsupported::SharedWriteClocks(memory)) => {
                if let Some(name) = name_of(module, *memory) {
                    text.append("register-bank memory '");
                    text.append(name.as_str());
                    text.append("' has multiple write clocks that may update the same word");
                    assert(text@ =~= self.text_in(module@));
                    return text;
                }
            },
            _ => {},
        }
        self.message()
    }
}

/// The name of a memory.
pub open spec fn memory_name(module: ModuleView, memory: MemoryId) -> Option<Seq<char>> {
    if memory.raw < module.memories.len() && module.memories[memory.raw as int].name.raw
        < module.names.len() {
        Some(module.names[module.memories[memory.raw as int].name.raw as int])
    } else {
        None
    }
}

fn name_of(module: &WordModule, memory: MemoryId) -> (name: Option<&String>)
    ensures
        match name {
            Some(name) => memory_name(module@, memory) == Some(name@),
            None => memory_name(module@, memory) is None,
        },
{
    if (memory.raw as usize) < module.memories.len() {
        let name = module.memories[memory.raw as usize].name;
        if (name.raw as usize) < module.names.len() {
            return Some(&module.names[name.raw as usize]);
        }
    }
    None
}

} // verus!
