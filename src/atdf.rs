//! Reading a chip description into the register map.
pub mod values;
pub mod field;
pub mod register;
pub mod register_group;
pub mod peripheral;
pub mod interrupt;
pub mod chip;
pub mod patch;

use vstd::prelude::*;
use crate::chip::Chip;
use crate::element::{first_named, Element};
use crate::error::{lemma_prefix_trans, Error, Warning};
use crate::name_map::has_key;
use crate::text;

verus! {

/// Whether `name` is among `patches`.
pub fn patch_enabled(patches: &Vec<String>, name: &str) -> (r: bool)
    ensures
        r == exists|i: int| 0 <= i < patches@.len() && #[trigger] patches@[i]@ == name@,
{
    let mut i: usize = 0;
    while i < patches.len()
        invariant
            i <= patches@.len(),
            forall|j: int| 0 <= j < i ==> #[trigger] patches@[j]@ != name@,
        decreases patches@.len() - i,
    {
        if text::equal(patches[i].as_str(), name) {
            return true;
        }
        i = i + 1;
    }
    false
}

/// Whether `patches` asks for the patch named `name`.
pub open spec fn requested(patches: Seq<String>, name: Seq<char>) -> bool {
    exists|i: int| 0 <= i < patches.len() && #[trigger] patches[i]@ == name
}

/// Whether the peripheral table `p3` comes from the tree through the
/// corrections in turn: `p0` as read, `p1` with the ports' pin fields where
/// the tree gives them, `p2` without the unsafe CPU registers, and `p3` with
/// the common register prefixes taken off where that is asked for.
pub open spec fn patched_from(
    tree: Element,
    strip_prefixes: bool,
    p0: Seq<(Seq<char>, crate::chip::PeripheralModel)>,
    p1: Seq<(Seq<char>, crate::chip::PeripheralModel)>,
    p2: Seq<(Seq<char>, crate::chip::PeripheralModel)>,
    p3: Seq<(Seq<char>, crate::chip::PeripheralModel)>,
) -> bool {
    &&& chip::chip_peripherals_read(tree, p0)
    &&& if patch::ports_ok(tree, p0) {
        patch::ports_patched(tree, p0, p1)
    } else {
        p1 == p0
    }
    &&& patch::cpu_regs_removed(p1, p2)
    &&& if strip_prefixes {
        patch::prefixes_removed(p2, p3)
    } else {
        p3 == p2
    }
}

/// Reads the chip that a description tree declares, then applies the
/// corrections: pin fields for the ports (skipped, with a warning, where the
/// description lacks what they need), removal of the CPU registers that are
/// unsafe to expose, and, where `patches` names it,
/// `remove_register_common_prefix`.
pub fn parse(tree: &Element, patches: &Vec<String>, warnings: &mut Vec<Warning>) -> (r: Result<
    Chip,
    Error,
>)
    ensures
        r matches Ok(c) ==> chip::interrupts_wf(c.interrupts@),
        r matches Ok(c) ==> has_key(c.peripherals@, "CPU"@) ==> !has_key(
            crate::name_map::value_at(c.peripherals@, "CPU"@).register_group.registers,
            "SREG"@,
        ) && !has_key(
            crate::name_map::value_at(c.peripherals@, "CPU"@).register_group.registers,
            "SP"@,
        ),
        r is Ok <==> chip::chip_ok(*tree),
        r matches Ok(c) ==> exists|
            p0: Seq<(Seq<char>, crate::chip::PeripheralModel)>,
            p1: Seq<(Seq<char>, crate::chip::PeripheralModel)>,
            p2: Seq<(Seq<char>, crate::chip::PeripheralModel)>,
        |
            #[trigger] patched_from(
                *tree,
                requested(patches@, "remove_register_common_prefix"@),
                p0,
                p1,
                p2,
                c.peripherals@,
            ),
        r matches Ok(c) ==> {
            let device = first_named(first_named(*tree, "devices"@), "device"@);
            let ints = first_named(device, "interrupts"@);
            let merged = interrupt::merged_interrupts(chip::declared_interrupts(ints));
            &&& forall|q: int| 0 <= q < merged.len() ==> has_key(c.interrupts@, (#[trigger] merged[q]).0)
                && crate::name_map::value_at(c.interrupts@, merged[q].0).index == merged[q].1
            &&& forall|t: int|
                0 <= t < c.interrupts@.len() ==> merged.contains(
                    ((#[trigger] c.interrupts@[t]).0, c.interrupts@[t].1.index),
                )
            &&& forall|t: int|
                0 <= t < c.interrupts@.len() ==> chip::described_as_first(
                    chip::declared_interrupts(ints),
                    chip::declared_captions(ints),
                    #[trigger] c.interrupts@[t].1,
                )
        },
        old(warnings)@.is_prefix_of(final(warnings)@),
{
    let mut chip = chip::parse(tree, warnings)?;
    let ghost p0 = chip.peripherals@;
    match patch::signals_to_port_fields(&mut chip, tree) {
        Ok(()) => {},
        Err(_) => {
            let ghost w1 = warnings@;
            warnings.push(Warning::PortFieldsSkipped);
            proof {
                lemma_prefix_trans(old(warnings)@, w1, warnings@);
            }
        },
    }
    let ghost p1 = chip.peripherals@;
    patch::remove_unsafe_cpu_regs(&mut chip, tree)?;
    let ghost p2 = chip.peripherals@;
    let strip = patch_enabled(patches, "remove_register_common_prefix");
    assert(strip == requested(patches@, "remove_register_common_prefix"@));
    if strip {
        let ghost before = chip.peripherals@;
        proof {
            use_type_invariant(&chip.peripherals);
        }
        patch::remove_register_common_prefix(&mut chip)?;
        proof {
            use_type_invariant(&chip.peripherals);
            let after = chip.peripherals@;
            if has_key(after, "CPU"@) {
                let t = choose|t: int| 0 <= t < after.len() && #[trigger] after[t].0 == "CPU"@;
                assert(before[t].0 == "CPU"@);
                crate::name_map::lemma_value_at_index(after, t);
                crate::name_map::lemma_value_at_index(before, t);
                let a = after[t].1.register_group.registers;
                let b = before[t].1.register_group.registers;
                if has_key(a, "SREG"@) {
                    let j = choose|j: int| 0 <= j < a.len() && #[trigger] a[j].0 == "SREG"@;
                    assert(b[j].0 == "SREG"@);
                }
                if has_key(a, "SP"@) {
                    let j = choose|j: int| 0 <= j < a.len() && #[trigger] a[j].0 == "SP"@;
                    assert(b[j].0 == "SP"@);
                }
            }
        }
    }
    assert(patched_from(*tree, strip, p0, p1, p2, chip.peripherals@));
    Ok(chip)
}

} // verus!
