//! The memory cells of a library.

use vstd::prelude::*;

verus! {

#[derive(Clone, Copy, PartialEq, Eq, Structural, Debug)]
pub enum TargetMemoryKind {
    Ram,
    Rom,
}

#[derive(Clone, Copy, PartialEq, Eq, Structural, Debug)]
pub enum TargetMemoryEdge {
    Rising,
    Falling,
}

#[derive(Clone, Copy, PartialEq, Eq, Structural, Debug)]
pub enum TargetMemoryDisabledRead {
    Hold,
    Undefined,
}

#[derive(Clone, Copy, PartialEq, Eq, Structural, Debug)]
pub enum TargetMemoryReadDuringWrite {
    OldData,
    NewData,
    NoChange,
    Undefined,
}

#[derive(Clone, Debug)]
pub struct TargetMemoryClock {
    pub pin: String,
    pub edge: TargetMemoryEdge,
}

#[derive(Clone, Debug)]
pub struct TargetMemoryEnable {
    pub pin: String,
    pub active_high: bool,
}

#[derive(Clone, Debug)]
pub struct TargetMemoryReadPort {
    pub address_pins: Vec<String>,
    pub data_pins: Vec<String>,
    pub clock: Option<TargetMemoryClock>,
    pub enable: Option<TargetMemoryEnable>,
    pub disabled: TargetMemoryDisabledRead,
    pub read_during_write: TargetMemoryReadDuringWrite,
}

#[derive(Clone, Debug)]
pub struct TargetMemoryWritePort {
    pub address_pins: Vec<String>,
    pub data_pins: Vec<String>,
    pub clock: TargetMemoryClock,
    pub enable: Option<TargetMemoryEnable>,
    pub mask_pins: Vec<String>,
    pub mask_granularity: u32,
    pub mask_active_high: bool,
}

#[derive(Clone, Debug)]
pub struct TargetMemory {
    pub kind: TargetMemoryKind,
    pub depth: u32,
    pub word_width: u32,
    pub read_ports: Vec<TargetMemoryReadPort>,
    pub write_ports: Vec<TargetMemoryWritePort>,
}

/// A cell of a library: whether it may be used, and what it stores.
#[derive(Clone, Debug)]
pub struct TargetCell {
    pub name: String,
    pub usable: bool,
    pub memory: Option<TargetMemory>,
}

} // verus!
