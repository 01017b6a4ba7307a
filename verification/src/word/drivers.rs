//! Which value drives which bit of a signal.

use super::module::{BitRange, Connect, ModuleView, SignalRef, SignalResolution, WordModule};
use super::semantics::{eval, Env};
use super::types::{SignalId, ValueId};
use vstd::prelude::*;

verus! {

/// One bit of a value.
#[derive(Clone, Copy, PartialEq, Eq, Structural, Debug)]
pub struct ValueBit {
    pub value: ValueId,
    pub bit: u32,
}

pub open spec fn low_end(range: BitRange) -> u32 {
    if range.msb <= range.lsb {
        range.msb
    } else {
        range.lsb
    }
}

pub open spec fn high_end(range: BitRange) -> u32 {
    if range.msb <= range.lsb {
        range.lsb
    } else {
        range.msb
    }
}

/// Whether a connection may drive a bit of a signal.
pub open spec fn touches(connect: Connect, signal: SignalId, bit: int) -> bool {
    &&& connect.target.signal == signal
    &&& connect.target.dynamic is Some || match connect.target.range {
        None => true,
        Some(range) => low_end(range) <= bit <= high_end(range),
    }
}

/// The value bit that a connection puts on a bit, if it is a plain forward
/// connection of matching width.
pub open spec fn plain_bit(module: ModuleView, connect: Connect, bit: int) -> Option<ValueBit> {
    if connect.target.dynamic is Some {
        None
    } else {
        match connect.target.range {
            None => if module.ty(connect.value).width
                == module.signals[connect.target.signal.raw as int].ty.width {
                Some(ValueBit { value: connect.value, bit: bit as u32 })
            } else {
                None
            },
            Some(range) => if range.msb >= range.lsb && module.ty(connect.value).width == range.msb
                - range.lsb + 1 {
                Some(ValueBit { value: connect.value, bit: (bit - range.lsb) as u32 })
            } else {
                None
            },
        }
    }
}

/// The connections among the first `count` that may drive a bit, folded to
/// the value bit of a single plain one.
pub open spec fn folded_driver(module: ModuleView, signal: SignalId, bit: int, count: nat) -> (
    nat,
    Option<ValueBit>,
)
    decreases count,
{
    if count == 0 {
        (0, None)
    } else {
        let below = folded_driver(module, signal, bit, (count - 1) as nat);
        let connect = module.connects[count - 1];
        if touches(connect, signal, bit) {
            (
                below.0 + 1,
                if below.0 == 0 {
                    plain_bit(module, connect, bit)
                } else {
                    None
                },
            )
        } else {
            below
        }
    }
}

/// The value bit that alone drives a bit of a signal. A signal whose drivers may let
/// go of it has none.
pub open spec fn bit_driver(module: ModuleView, signal: SignalId, bit: int) -> Option<ValueBit> {
    if module.signals[signal.raw as int].resolution is TriState {
        None
    } else {
        folded_driver(module, signal, bit, module.connects.len()).1
    }
}

/// An environment in which driven signal bits carry their drivers.
pub open spec fn driven(module: ModuleView, env: Env) -> bool {
    forall|signal: SignalId, bit: int|
        signal.raw < module.signals.len() && 0 <= bit < module.signals[signal.raw as int].ty.width
            ==> ((#[trigger] bit_driver(module, signal, bit)) matches Some(driver) ==> (env.signal)(
            signal.raw as int,
            bit,
        ) == eval(module, env, driver.value.raw as int)[driver.bit as int])
}

/// A driver is a bit of an existing value.
pub proof fn lemma_folded_driver(module: ModuleView, signal: SignalId, bit: int, count: nat)
    requires
        module.wf(),
        signal.raw < module.signals.len(),
        0 <= bit < module.signals[signal.raw as int].ty.width,
        count <= module.connects.len(),
    ensures
        folded_driver(module, signal, bit, count).1 matches Some(driver) ==> module.has(
            driver.value,
        ) && driver.bit < module.ty(driver.value).width,
        folded_driver(module, signal, bit, count).0 <= count,
    decreases count,
{
    if count > 0 {
        lemma_folded_driver(module, signal, bit, (count - 1) as nat);
        let connect = module.connects[count - 1];
        assert(module.connect_ok(connect));
    }
}

/// The drivers of a module's signals, worked out once.
pub struct SignalDriverIndex {
    pub bits: Vec<Vec<Option<ValueBit>>>,
    pub values: Vec<Vec<ValueId>>,
}

/// The values connected to a signal, in the order of the connections.
pub open spec fn connected_values(module: ModuleView, signal: SignalId, count: nat) -> Seq<ValueId>
    decreases count,
{
    if count == 0 {
        seq![]
    } else {
        let below = connected_values(module, signal, (count - 1) as nat);
        let connect = module.connects[count - 1];
        if connect.target.signal == signal {
            below.push(connect.value)
        } else {
            below
        }
    }
}

impl SignalDriverIndex {
    pub open spec fn describes(&self, module: ModuleView) -> bool {
        &&& self.bits@.len() == module.signals.len()
        &&& self.values@.len() == module.signals.len()
        &&& forall|s: int|
            0 <= s < module.signals.len() ==> (#[trigger] self.bits@[s])@.len()
                == module.signals[s].ty.width
        &&& forall|s: int, b: int|
            0 <= s < module.signals.len() && 0 <= b < module.signals[s].ty.width ==> (
            #[trigger] self.bits@[s]@[b]) == bit_driver(module, SignalId { raw: s as u32 }, b)
        &&& forall|s: int|
            0 <= s < module.signals.len() ==> (#[trigger] self.values@[s])@ == connected_values(
                module,
                SignalId { raw: s as u32 },
                module.connects.len(),
            )
    }

    /// The driver of one bit, from the connections.
    fn find_driver(module: &WordModule, signal: SignalId, bit: u32) -> (driver: Option<ValueBit>)
        requires
            module@.wf(),
            signal.raw < module@.signals.len(),
            bit < module@.signals[signal.raw as int].ty.width,
        ensures
            driver == bit_driver(module@, signal, bit as int),
    {
        if matches!(module.signals[signal.raw as usize].resolution, SignalResolution::TriState) {
            return None;
        }
        let mut found: usize = 0;
        let mut driver: Option<ValueBit> = None;
        let mut index: usize = 0;
        while index < module.connects.len()
            invariant
                module@.wf(),
                signal.raw < module@.signals.len(),
                bit < module@.signals[signal.raw as int].ty.width,
                index <= module.connects@.len(),
                found <= index,
                !(module@.signals[signal.raw as int].resolution is TriState),
                (found as nat, driver) == folded_driver(module@, signal, bit as int, index as nat),
            decreases module.connects.len() - index,
        {
            let connect = module.connects[index];
            assert(connect == module@.connects[index as int]);
            assert(module@.connect_ok(connect));
            if connect.target.signal == signal {
                let whole: bool = connect.target.dynamic.is_some();
                let inside: bool = match connect.target.range {
                    None => true,
                    Some(range) => if range.msb <= range.lsb {
                        range.msb <= bit && bit <= range.lsb
                    } else {
                        range.lsb <= bit && bit <= range.msb
                    },
                };
                if whole || inside {
                    let width: u32 = module.values[connect.value.raw as usize].ty.width;
                    let plain: Option<ValueBit> = if whole {
                        None
                    } else {
                        match connect.target.range {
                            None => if width == module.signals[signal.raw as usize].ty.width {
                                Some(ValueBit { value: connect.value, bit })
                            } else {
                                None
                            },
                            Some(range) => if range.msb >= range.lsb && width as u64
                                == range.msb as u64 - range.lsb as u64 + 1 {
                                Some(ValueBit { value: connect.value, bit: bit - range.lsb })
                            } else {
                                None
                            },
                        }
                    };
                    driver =
                    if found == 0 {
                        plain
                    } else {
                        None
                    };
                    found += 1;
                }
            }
            index += 1;
        }
        driver
    }

    pub fn new(module: &WordModule) -> (drivers: Self)
        requires
            module@.wf(),
        ensures
            drivers.describes(module@),
    {
        let mut bits: Vec<Vec<Option<ValueBit>>> = Vec::new();
        let mut values: Vec<Vec<ValueId>> = Vec::new();
        let mut signal: usize = 0;
        while signal < module.signals.len()
            invariant
                module@.wf(),
                signal <= module@.signals.len(),
                bits@.len() == signal,
                values@.len() == signal,
                forall|s: int|
                    0 <= s < signal ==> (#[trigger] bits@[s])@.len() == module@.signals[s].ty.width,
                forall|s: int, b: int|
                    0 <= s < signal && 0 <= b < module@.signals[s].ty.width ==> (
                    #[trigger] bits@[s]@[b]) == bit_driver(module@, SignalId { raw: s as u32 }, b),
                forall|s: int|
                    0 <= s < signal ==> (#[trigger] values@[s])@ == connected_values(
                        module@,
                        SignalId { raw: s as u32 },
                        module@.connects.len(),
                    ),
            decreases module.signals.len() - signal,
        {
            let id = SignalId { raw: signal as u32 };
            let width: u32 = module.signals[signal].ty.width;
            let mut row: Vec<Option<ValueBit>> = Vec::new();
            let mut bit: u32 = 0;
            while bit < width
                invariant
                    module@.wf(),
                    signal < module@.signals.len(),
                    id.raw == signal,
                    width == module@.signals[signal as int].ty.width,
                    bit <= width,
                    row@.len() == bit,
                    forall|b: int| 0 <= b < bit ==> #[trigger] row@[b] == bit_driver(module@, id, b),
                decreases width - bit,
            {
                row.push(SignalDriverIndex::find_driver(module, id, bit));
                bit += 1;
            }
            let mut connected: Vec<ValueId> = Vec::new();
            let mut index: usize = 0;
            while index < module.connects.len()
                invariant
                    index <= module@.connects.len(),
                    connected@ == connected_values(module@, id, index as nat),
                decreases module.connects.len() - index,
            {
                let connect = module.connects[index];
                assert(connect == module@.connects[index as int]);
                if connect.target.signal == id {
                    connected.push(connect.value);
                }
                index += 1;
            }
            bits.push(row);
            values.push(connected);
            signal += 1;
        }
        SignalDriverIndex { bits, values }
    }

    pub open spec fn driver(&self, signal: SignalId, bit: int) -> Option<ValueBit> {
        self.bits@[signal.raw as int]@[bit]
    }

    /// The driver of bit `i` of a reference.
    pub open spec fn driver_at(&self, reference: SignalRef, i: int) -> Option<ValueBit> {
        self.driver(reference.signal, reference.lsb + i)
    }

    /// Whether a value drives some bit of a reference.
    pub open spec fn drives(&self, reference: SignalRef, value: ValueId) -> bool {
        exists|i: int|
            0 <= i < reference.width && (#[trigger] self.driver_at(reference, i)) is Some
                && self.driver_at(reference, i)->0.value == value
    }

    pub open spec fn covers(&self, reference: SignalRef) -> bool {
        &&& reference.signal.raw < self.bits@.len()
        &&& reference.lsb + reference.width <= self.bits@[reference.signal.raw as int]@.len()
        &&& reference.lsb + reference.width <= u32::MAX
    }

    pub open spec fn resolves(&self, reference: SignalRef) -> bool {
        forall|i: int|
            0 <= i < reference.width ==> (#[trigger] self.driver_at(reference, i)) is Some
    }

    /// The value bits that drive a reference, lowest bit first.
    pub fn resolve_reference(&self, reference: SignalRef) -> (drivers: Option<Vec<ValueBit>>)
        requires
            self.covers(reference),
        ensures
            drivers is Some <==> self.resolves(reference),
            drivers matches Some(bits) ==> bits@.len() == reference.width && forall|i: int|
                0 <= i < bits@.len() ==> Some(#[trigger] bits@[i]) == self.driver_at(reference, i),
    {
        let mut found: Vec<ValueBit> = Vec::new();
        let mut offset: u32 = 0;
        while offset < reference.width
            invariant
                self.covers(reference),
                offset <= reference.width,
                found@.len() == offset,
                forall|i: int|
                    0 <= i < found@.len() ==> Some(#[trigger] found@[i]) == self.driver_at(reference, i),
            decreases reference.width - offset,
        {
            let row = &self.bits[reference.signal.raw as usize];
            match row[(reference.lsb + offset) as usize] {
                Some(bit) => {
                    found.push(bit);
                },
                None => {
                    assert(self.driver_at(reference, offset as int) is None);
                    return None;
                },
            }
            offset += 1;
        }
        assert forall|i: int| 0 <= i < reference.width implies (#[trigger] self.driver_at(reference, i)) is Some by {
            assert(Some(found@[i]) == self.driver_at(reference, i));
        }
        Some(found)
    }

    /// The distinct values that drive a reference, in the order in which they
    /// first occur.
    pub fn reference_drivers(&self, reference: SignalRef) -> (drivers: Option<Vec<ValueId>>)
        requires
            self.covers(reference),
        ensures
            drivers is Some <==> self.resolves(reference),
            drivers matches Some(values) ==> {
                &&& values@.no_duplicates()
                &&& forall|i: int|
                    0 <= i < reference.width ==> values@.contains(
                        (#[trigger] self.driver_at(reference, i))->0.value,
                    )
                &&& forall|k: int|
                    0 <= k < values@.len() ==> self.drives(reference, #[trigger] values@[k])
            },
    {
        let bits = match self.resolve_reference(reference) {
            Some(bits) => bits,
            None => return None,
        };
        let mut values: Vec<ValueId> = Vec::new();
        let mut index: usize = 0;
        while index < bits.len()
            invariant
                index <= bits@.len(),
                bits@.len() == reference.width,
                forall|i: int|
                    0 <= i < bits@.len() ==> Some(#[trigger] bits@[i]) == self.driver_at(reference, i),
                values@.no_duplicates(),
                forall|i: int|
                    0 <= i < index ==> values@.contains((#[trigger] bits@[i]).value),
                forall|k: int|
                    0 <= k < values@.len() ==> exists|i: int|
                        0 <= i < index && (#[trigger] bits@[i]).value == (#[trigger] values@[k]),
            decreases bits.len() - index,
        {
            let value = bits[index].value;
            let ghost before = values@;
            if !contains_value(&values, value) {
                values.push(value);
                proof {
                    assert(values@[before.len() as int] == value);
                    assert forall|i: int| 0 <= i < index implies values@.contains(
                        (#[trigger] bits@[i]).value,
                    ) by {
                        let k = choose|k: int|
                            0 <= k < before.len() && before[k] == bits@[i].value;
                        assert(values@[k] == bits@[i].value);
                    }
                }
            }
            proof {
                assert forall|k: int| 0 <= k < values@.len() implies exists|i: int|
                    0 <= i < index + 1 && (#[trigger] bits@[i]).value == (#[trigger] values@[k]) by {
                    if k < before.len() {
                        assert(values@[k] == before[k]);
                        let i = choose|i: int| 0 <= i < index && (#[trigger] bits@[i]).value
                            == before[k];
                        assert(bits@[i].value == values@[k]);
                    } else {
                        assert(bits@[index as int].value == values@[k]);
                    }
                }
            }
            index += 1;
        }
        proof {
            assert forall|i: int| 0 <= i < reference.width implies values@.contains(
                (#[trigger] self.driver_at(reference, i))->0.value,
            ) by {
                assert(values@.contains(bits@[i].value));
            }
            assert forall|k: int| 0 <= k < values@.len() implies self.drives(reference, #[trigger] values@[k]) by {
                let value = values@[k];
                let i = choose|i: int| 0 <= i < bits@.len() && (#[trigger] bits@[i]).value
                    == value;
                assert(self.driver_at(reference, i)->0.value == values@[k]);
            }
        }
        Some(values)
    }
}

pub fn contains_value(values: &Vec<ValueId>, value: ValueId) -> (found: bool)
    ensures
        found == values@.contains(value),
{
    let mut index: usize = 0;
    while index < values.len()
        invariant
            index <= values@.len(),
            forall|i: int| 0 <= i < index ==> values@[i] != value,
        decreases values.len() - index,
    {
        if values[index] == value {
            return true;
        }
        index += 1;
    }
    false
}

} // verus!
