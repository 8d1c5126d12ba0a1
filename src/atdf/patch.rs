//! Corrections applied to a chip after it has been read.
use vstd::prelude::*;
use crate::chip::{AccessMode, Chip, Field, FieldModel, Peripheral, PeripheralModel, Register, RegisterGroupModel, RegisterModel, ValueRestriction, RestrictionModel};
use crate::element::{attr_of, carries, first_carrying, first_named, has_child, named, opt_view, Element};
use crate::error::Error;
use crate::name_map::{has_key, unique_keys, value_at, Duplicate, NameMap};
use crate::text::{self, decimal_text};
use crate::util::{int_value, is_int_text, parse_int};

verus! {

/// `p` with the registers of its root group replaced by `regs`.
pub open spec fn with_registers(p: PeripheralModel, regs: Seq<(Seq<char>, RegisterModel)>) -> PeripheralModel {
    PeripheralModel { register_group: RegisterGroupModel { registers: regs, ..p.register_group }, ..p }
}

/// Whether the peripheral table `after` is `before` without the registers
/// `SREG` and `SP` of the peripheral named `CPU`.
pub open spec fn cpu_regs_removed(
    before: Seq<(Seq<char>, PeripheralModel)>,
    after: Seq<(Seq<char>, PeripheralModel)>,
) -> bool {
    &&& forall|q: Seq<char>|
        q != "CPU"@ ==> (has_key(after, q) == has_key(before, q) && (has_key(before, q)
            ==> value_at(after, q) == value_at(before, q)))
    &&& has_key(after, "CPU"@) == has_key(before, "CPU"@)
    &&& has_key(before, "CPU"@) ==> {
        let b = value_at(before, "CPU"@);
        let a = value_at(after, "CPU"@);
        &&& a == with_registers(b, a.register_group.registers)
        &&& !has_key(a.register_group.registers, "SREG"@)
        &&& !has_key(a.register_group.registers, "SP"@)
        &&& forall|q: Seq<char>|
            q != "SREG"@ && q != "SP"@ ==> (has_key(a.register_group.registers, q) == has_key(
                b.register_group.registers,
                q,
            ) && (has_key(b.register_group.registers, q) ==> value_at(a.register_group.registers, q)
                == value_at(b.register_group.registers, q)))
    }
}

/// Removes from the peripheral named `CPU` the registers `SREG` and `SP`,
/// which are not safe to expose; every other register and peripheral stays.
pub fn remove_unsafe_cpu_regs(chip: &mut Chip, _el: &Element) -> (r: Result<(), Error>)
    ensures
        final(chip).name == old(chip).name,
        final(chip).architecture == old(chip).architecture,
        final(chip).family == old(chip).family,
        final(chip).series == old(chip).series,
        final(chip).description == old(chip).description,
        final(chip).vendor == old(chip).vendor,
        final(chip).version == old(chip).version,
        r is Ok,
        final(chip).interrupts@ == old(chip).interrupts@,
        forall|q: Seq<char>|
            q != "CPU"@ ==> (has_key(final(chip).peripherals@, q) == has_key(old(chip).peripherals@, q)
                && (has_key(old(chip).peripherals@, q) ==> value_at(final(chip).peripherals@, q)
                == value_at(old(chip).peripherals@, q))),
        has_key(final(chip).peripherals@, "CPU"@) == has_key(old(chip).peripherals@, "CPU"@),
        has_key(old(chip).peripherals@, "CPU"@) ==> {
            let before = value_at(old(chip).peripherals@, "CPU"@);
            let after = value_at(final(chip).peripherals@, "CPU"@);
            &&& after == with_registers(before, after.register_group.registers)
            &&& !has_key(after.register_group.registers, "SREG"@)
            &&& !has_key(after.register_group.registers, "SP"@)
            &&& forall|q: Seq<char>|
                q != "SREG"@ && q != "SP"@ ==> (has_key(after.register_group.registers, q)
                    == has_key(before.register_group.registers, q) && (has_key(
                    before.register_group.registers,
                    q,
                ) ==> value_at(after.register_group.registers, q) == value_at(
                    before.register_group.registers,
                    q,
                )))
        },
        cpu_regs_removed(old(chip).peripherals@, final(chip).peripherals@),
{
    let ghost old_map = chip.peripherals@;
    proof {
        use_type_invariant(&chip.peripherals);
    }
    match chip.peripherals.remove("CPU") {
        Some(mut cpu) => {
            let ghost before = cpu@;
            proof {
                let i = choose|i: int|
                    0 <= i < old_map.len() && old_map[i].0 == "CPU"@ && cpu@ == old_map[i].1;
                crate::name_map::lemma_value_at_index(old_map, i);
            }
            cpu.register_group.registers.remove("SREG");
            cpu.register_group.registers.remove("SP");
            assert(cpu@ == with_registers(before, cpu@.register_group.registers));
            chip.peripherals.insert(text::owned("CPU"), cpu);
        },
        None => {},
    }
    Ok(())
}

/// Whether every string of `strings` begins with `p`.
pub open spec fn common_to_all(strings: Seq<Seq<char>>, p: Seq<char>) -> bool {
    forall|i: int|
        0 <= i < strings.len() ==> p.len() <= (#[trigger] strings[i]).len() && strings[i].subrange(
            0,
            p.len() as int,
        ) == p
}

/// The length of the longest prefix of the first string, of at least `l`
/// characters and shorter than that string, that all strings share, found by
/// growing it one character at a time from `l`.
pub open spec fn common_prefix_len_from(strings: Seq<Seq<char>>, l: nat) -> nat
    recommends
        strings.len() > 0,
    decreases strings[0].len() - l,
{
    if l + 1 < strings[0].len() && common_to_all(strings, strings[0].subrange(0, (l + 1) as int)) {
        common_prefix_len_from(strings, l + 1)
    } else {
        l
    }
}

/// The longest prefix of the first string, shorter than it, that all strings
/// share; empty where there is no string.
pub open spec fn common_prefix(strings: Seq<Seq<char>>) -> Seq<char> {
    if strings.len() == 0 {
        Seq::empty()
    } else {
        strings[0].subrange(0, common_prefix_len_from(strings, 0) as int)
    }
}

/// The views of string slices.
pub open spec fn str_views(strings: Seq<&str>) -> Seq<Seq<char>> {
    strings.map_values(|s: &str| s@)
}

fn all_start_with(strings: &[&str], prefix: &str) -> (r: bool)
    ensures
        r == common_to_all(str_views(strings@), prefix@),
{
    let mut i: usize = 0;
    while i < strings.len()
        invariant
            i <= strings@.len(),
            forall|j: int|
                0 <= j < i ==> prefix@.len() <= (#[trigger] strings@[j])@.len() && strings@[j]@.subrange(
                    0,
                    prefix@.len() as int,
                ) == prefix@,
        decreases strings@.len() - i,
    {
        if !text::starts_with(strings[i], prefix) {
            assert(str_views(strings@)[i as int] == strings@[i as int]@);
            return false;
        }
        i = i + 1;
    }
    assert forall|j: int| 0 <= j < str_views(strings@).len() implies prefix@.len() <= (
    #[trigger] str_views(strings@)[j]).len() && str_views(strings@)[j].subrange(0, prefix@.len() as int) == prefix@ by {
        assert(str_views(strings@)[j] == strings@[j]@);
    }
    true
}

/// The longest prefix that all `strings` share, taken among the prefixes of
/// the first one that are shorter than it.
pub fn longest_common_prefix<'a>(strings: &[&'a str]) -> (r: &'a str)
    ensures
        r@ == common_prefix(str_views(strings@)),
{
    if strings.len() == 0 {
        proof {
            reveal_strlit("");
        }
        return "";
    }
    let ghost ss = str_views(strings@);
    let first = strings[0];
    assert(ss[0] == first@);
    let n = first.unicode_len();
    let mut l: usize = 0;
    while l + 1 < n && all_start_with(strings, first.substring_char(0, l + 1))
        invariant
            ss == str_views(strings@),
            ss.len() > 0,
            ss[0] == first@,
            n == first@.len(),
            l < n || l == 0,
            common_prefix_len_from(ss, 0) == common_prefix_len_from(ss, l as nat),
        decreases n - l,
    {
        l = l + 1;
    }
    first.substring_char(0, l)
}

/// `name` without `p` where it begins with `p`.
pub open spec fn strip(name: Seq<char>, p: Seq<char>) -> Seq<char> {
    if p.len() <= name.len() && name.subrange(0, p.len() as int) == p {
        name.skip(p.len() as int)
    } else {
        name
    }
}

/// The prefix to take off the register names of a group: the common prefix of
/// their keys, where there are at least two and it ends with an underscore
/// after at least one more character.
pub open spec fn register_prefix(regs: Seq<(Seq<char>, RegisterModel)>) -> Option<Seq<char>> {
    let p = common_prefix(regs.map_values(|e: (Seq<char>, RegisterModel)| e.0));
    if regs.len() >= 2 && p.len() >= 2 && p.last() == '_' {
        Some(p)
    } else {
        None
    }
}

/// Whether `after` is `before` with each register name stripped of `p`
/// where one is given.
pub open spec fn names_stripped(
    before: Seq<(Seq<char>, RegisterModel)>,
    after: Seq<(Seq<char>, RegisterModel)>,
    p: Option<Seq<char>>,
) -> bool {
    &&& after.len() == before.len()
    &&& forall|j: int|
        0 <= j < before.len() ==> (#[trigger] after[j]).0 == before[j].0 && after[j].1
            == (RegisterModel { name: after[j].1.name, ..before[j].1 }) && after[j].1.name@ == match p {
            Some(q) => strip(before[j].1.name@, q),
            None => before[j].1.name@,
        }
}

fn strip_register_names(regs: NameMap<Register>) -> (r: NameMap<Register>)
    ensures
        names_stripped(regs@, r@, register_prefix(regs@)),
{
    let ghost before = regs@;
    if regs.len() < 2 {
        let r = regs;
        assert(names_stripped(before, r@, None));
        return r;
    }
    let mut keys: Vec<&str> = Vec::new();
    let mut i: usize = 0;
    while i < regs.len()
        invariant
            i <= regs@.len(),
            keys@.len() == i,
            forall|j: int| 0 <= j < i ==> (#[trigger] keys@[j])@ == regs@[j].0,
        decreases regs@.len() - i,
    {
        keys.push(regs.key(i).as_str());
        i = i + 1;
    }
    assert(str_views(keys@) =~= regs@.map_values(|e: (Seq<char>, RegisterModel)| e.0));
    let prefix = longest_common_prefix(keys.as_slice());
    let plen = prefix.unicode_len();
    let valid = plen >= 2 && prefix.get_char(plen - 1) == '_';
    let ghost p = register_prefix(before);
    assert(valid == (p is Some));
    let prefix = text::owned(prefix);
    let mut rest = regs.into_entries();
    let mut out: NameMap<Register> = NameMap::new();
    let ghost mut k: int = 0;
    while rest.len() > 0
        invariant
            0 <= k,
            before.len() == k + rest@.len(),
            unique_keys(before),
            crate::name_map::ascending_keys(before),
            forall|j: int| 0 <= j < rest@.len() ==> ((#[trigger] rest@[j]).0@, rest@[j].1@) == before[j + k],
            valid == (p is Some),
            valid ==> p == Some(prefix@),
            plen == prefix@.len(),
            out@.len() == k,
            forall|j: int|
                0 <= j < k ==> (#[trigger] out@[j]).0 == before[j].0 && out@[j].1 == (RegisterModel {
                    name: out@[j].1.name,
                    ..before[j].1
                }) && out@[j].1.name@ == match p {
                    Some(q) => strip(before[j].1.name@, q),
                    None => before[j].1.name@,
                },
        decreases rest@.len(),
    {
        let (key, mut reg) = rest.remove(0);
        assert((key@, reg@) == before[k]);
        if valid && text::starts_with(reg.name.as_str(), prefix.as_str()) {
            let n = reg.name.unicode_len();
            let stripped = text::owned(reg.name.substring_char(plen, n));
            reg.name = stripped;
        }
        proof {
            if has_key(out@, key@) {
                let t = choose|t: int| 0 <= t < out@.len() && #[trigger] out@[t].0 == key@;
                assert(before[t].0 != before[k].0);
            }
        }
        let ghost prev = out@;
        proof {
            crate::name_map::lemma_prefix_precedes(before, out@, k);
        }
        out.push_new(key, reg);
        proof {
            assert forall|j: int| 0 <= j < k implies #[trigger] out@[j] == prev[j] by {}
            k = k + 1;
        }
    }
    out
}

/// Whether the peripheral table `after` is `before` with the common prefix
/// of each root group's register names taken off (see [`register_prefix`]).
pub open spec fn prefixes_removed(
    before: Seq<(Seq<char>, PeripheralModel)>,
    after: Seq<(Seq<char>, PeripheralModel)>,
) -> bool {
    &&& after.len() == before.len()
    &&& forall|i: int|
        0 <= i < before.len() ==> {
            let b = before[i].1;
            let a = (#[trigger] after[i]).1;
            &&& after[i].0 == before[i].0
            &&& a == with_registers(b, a.register_group.registers)
            &&& names_stripped(
                b.register_group.registers,
                a.register_group.registers,
                register_prefix(b.register_group.registers),
            )
        }
}

/// Takes off the register names of each peripheral's root group the prefix
/// that all their keys share, where there are at least two registers and the
/// prefix is at least two characters ending with an underscore.
pub fn remove_register_common_prefix(chip: &mut Chip) -> (r: Result<(), Error>)
    ensures
        final(chip).name == old(chip).name,
        final(chip).architecture == old(chip).architecture,
        final(chip).family == old(chip).family,
        final(chip).series == old(chip).series,
        final(chip).description == old(chip).description,
        final(chip).vendor == old(chip).vendor,
        final(chip).version == old(chip).version,
        r is Ok,
        final(chip).interrupts@ == old(chip).interrupts@,
        final(chip).peripherals@.len() == old(chip).peripherals@.len(),
        forall|i: int|
            0 <= i < old(chip).peripherals@.len() ==> {
                let before = old(chip).peripherals@[i].1;
                let after = (#[trigger] final(chip).peripherals@[i]).1;
                &&& final(chip).peripherals@[i].0 == old(chip).peripherals@[i].0
                &&& after == with_registers(before, after.register_group.registers)
                &&& names_stripped(
                    before.register_group.registers,
                    after.register_group.registers,
                    register_prefix(before.register_group.registers),
                )
            },
        prefixes_removed(old(chip).peripherals@, final(chip).peripherals@),
{
    let mut peripherals: NameMap<Peripheral> = NameMap::new();
    std::mem::swap(&mut peripherals, &mut chip.peripherals);
    let ghost before = peripherals@;
    let mut rest = peripherals.into_entries();
    let mut out: NameMap<Peripheral> = NameMap::new();
    let ghost mut k: int = 0;
    while rest.len() > 0
        invariant
            0 <= k,
            before.len() == k + rest@.len(),
            unique_keys(before),
            crate::name_map::ascending_keys(before),
            forall|j: int| 0 <= j < rest@.len() ==> ((#[trigger] rest@[j]).0@, rest@[j].1@) == before[j + k],
            out@.len() == k,
            forall|j: int|
                0 <= j < k ==> {
                    let b = before[j].1;
                    let a = (#[trigger] out@[j]).1;
                    &&& out@[j].0 == before[j].0
                    &&& a == with_registers(b, a.register_group.registers)
                    &&& names_stripped(
                        b.register_group.registers,
                        a.register_group.registers,
                        register_prefix(b.register_group.registers),
                    )
                },
        decreases rest@.len(),
    {
        let (key, mut p) = rest.remove(0);
        assert((key@, p@) == before[k]);
        let mut regs: NameMap<Register> = NameMap::new();
        std::mem::swap(&mut regs, &mut p.register_group.registers);
        p.register_group.registers = strip_register_names(regs);
        proof {
            if has_key(out@, key@) {
                let t = choose|t: int| 0 <= t < out@.len() && #[trigger] out@[t].0 == key@;
                assert(before[t].0 != before[k].0);
            }
        }
        proof {
            crate::name_map::lemma_prefix_precedes(before, out@, k);
        }
        out.push_new(key, p);
        proof {
            k = k + 1;
        }
    }
    chip.peripherals = out;
    Ok(())
}

/// Whether a peripheral name is that of a port: `PORT` and one more character.
pub open spec fn is_port(name: Seq<char>) -> bool {
    name.len() == 5 && name.subrange(0, 4) == "PORT"@
}

fn port_letter(name: &str) -> (r: Option<&str>)
    ensures
        r is Some <==> is_port(name@),
        r matches Some(l) ==> l@ == seq![name@[4]],
{
    if name.unicode_len() == 5 && text::starts_with(name, "PORT") {
        proof {
            reveal_strlit("PORT");
        }
        let l = name.substring_char(4, 5);
        assert(l@ =~= seq![name@[4]]);
        Some(l)
    } else {
        proof {
            reveal_strlit("PORT");
        }
        None
    }
}

/// The key of a peripheral after renaming: `PORT_` and the port's letter for a
/// port, else its key as it was.
pub open spec fn renamed_key(k: Seq<char>, p: PeripheralModel) -> Seq<char> {
    if is_port(p.name@) {
        "PORT_"@ + seq![p.name@[4]]
    } else {
        k
    }
}

/// Whether entry `e` is the renamed form of entry `i` of `before`.
pub open spec fn renamed_from(before: Seq<(Seq<char>, PeripheralModel)>, i: int, e: (Seq<char>, PeripheralModel)) -> bool {
    &&& e.0 == renamed_key(before[i].0, before[i].1)
    &&& e.1 == (PeripheralModel { name: e.1.name, ..before[i].1 })
    &&& is_port(before[i].1.name@) ==> e.1.name@ == e.0
    &&& !is_port(before[i].1.name@) ==> e.1.name == before[i].1.name
}

/// Whether entry `e` is the renamed form of some entry of `before`.
pub open spec fn renamed_somewhere(before: Seq<(Seq<char>, PeripheralModel)>, e: (Seq<char>, PeripheralModel)) -> bool {
    exists|i: int| 0 <= i < before.len() && #[trigger] renamed_from(before, i, e)
}

/// Renames each port peripheral `PORTX` to `PORT_X`, in its name and its key;
/// a renamed port replaces a peripheral already listed under the new name.
pub fn port_rename_snake_case(chip: &mut Chip) -> (r: Result<(), Error>)
    ensures
        final(chip).name == old(chip).name,
        final(chip).architecture == old(chip).architecture,
        final(chip).family == old(chip).family,
        final(chip).series == old(chip).series,
        final(chip).description == old(chip).description,
        final(chip).vendor == old(chip).vendor,
        final(chip).version == old(chip).version,
        r is Ok,
        final(chip).interrupts@ == old(chip).interrupts@,
        forall|i: int|
            0 <= i < old(chip).peripherals@.len() ==> has_key(
                final(chip).peripherals@,
                renamed_key(old(chip).peripherals@[i].0, #[trigger] old(chip).peripherals@[i].1),
            ),
        forall|t: int|
            0 <= t < final(chip).peripherals@.len() ==> renamed_somewhere(
                old(chip).peripherals@,
                #[trigger] final(chip).peripherals@[t],
            ),
        forall|t: int| 0 <= t < final(chip).peripherals@.len() ==> !is_port((#[trigger] final(chip).peripherals@[t]).1.name@),
        (forall|i: int| 0 <= i < old(chip).peripherals@.len() ==> !is_port((#[trigger] old(chip).peripherals@[i]).1.name@))
            ==> final(chip).peripherals@ == old(chip).peripherals@,
{
    let mut any_port = false;
    let mut j: usize = 0;
    while j < chip.peripherals.len()
        invariant
            j <= chip.peripherals@.len(),
            !any_port ==> forall|i: int| 0 <= i < j ==> !is_port((#[trigger] chip.peripherals@[i]).1.name@),
            any_port ==> exists|i: int| 0 <= i < j && is_port((#[trigger] chip.peripherals@[i]).1.name@),
        decreases chip.peripherals@.len() - j,
    {
        if port_letter(chip.peripherals.value(j).name.as_str()).is_some() {
            any_port = true;
            assert(is_port(chip.peripherals@[j as int].1.name@));
        }
        j = j + 1;
    }
    if !any_port {
        proof {
            let ps = chip.peripherals@;
            assert forall|t: int| 0 <= t < ps.len() implies renamed_somewhere(ps, #[trigger] ps[t]) by {
                assert(renamed_from(ps, t, ps[t]));
            }
        }
        return Ok(());
    }
    let mut peripherals: NameMap<Peripheral> = NameMap::new();
    std::mem::swap(&mut peripherals, &mut chip.peripherals);
    let ghost before = peripherals@;
    let mut rest = peripherals.into_entries();
    let mut out: NameMap<Peripheral> = NameMap::new();
    let ghost mut k: int = 0;
    let ghost mut origin: Seq<int> = Seq::empty();
    while rest.len() > 0
        invariant
            0 <= k,
            before == old(chip).peripherals@,
            chip.interrupts@ == old(chip).interrupts@,
            before.len() == k + rest@.len(),
            forall|j: int| 0 <= j < rest@.len() ==> ((#[trigger] rest@[j]).0@, rest@[j].1@) == before[j + k],
            forall|i: int| 0 <= i < k ==> has_key(out@, renamed_key(before[i].0, #[trigger] before[i].1)),
            origin.len() == out@.len(),
            forall|t: int|
                0 <= t < out@.len() ==> 0 <= #[trigger] origin[t] < k && renamed_from(before, origin[t], out@[t]),
        decreases rest@.len(),
    {
        let (key, mut p) = rest.remove(0);
        assert((key@, p@) == before[k]);
        let new_key = match port_letter(p.name.as_str()) {
            Some(l) => {
                let n = text::join("PORT_", l);
                p.name = n.clone();
                n
            },
            None => key,
        };
        let ghost nk = new_key@;
        let ghost prev = out@;
        let ghost val = p@;
        assert(nk == renamed_key(before[k].0, before[k].1));
        assert(renamed_from(before, k, (nk, val)));
        out.insert(new_key, p);
        proof {
            assert forall|i: int| 0 <= i < k + 1 implies has_key(out@, renamed_key(before[i].0, #[trigger] before[i].1)) by {
                if i < k {
                    if renamed_key(before[i].0, before[i].1) != nk {
                        assert(has_key(prev, renamed_key(before[i].0, before[i].1)));
                    }
                }
            }
            if has_key(prev, nk) {
                let q = choose|q: int| 0 <= q < prev.len() && prev[q].0 == nk && out@ == prev.update(q, (nk, val));
                origin = origin.update(q, k);
            } else {
                let q = choose|q: int| 0 <= q <= prev.len() && out@ == prev.insert(q, (nk, val));
                origin = origin.insert(q, k);
                assert forall|t: int| 0 <= t < out@.len() implies 0 <= #[trigger] origin[t] < k + 1 && renamed_from(before, origin[t], out@[t]) by {
                    if t < q {
                        assert(out@[t] == prev[t]);
                    } else if t > q {
                        assert(out@[t] == prev[t - 1]);
                    }
                }
            }
            k = k + 1;
        }
    }
    assert(k == before.len());
    let ghost fin = out@;
    chip.peripherals = out;
    assert(chip.peripherals@ == fin);
    assert forall|t: int| 0 <= t < chip.peripherals@.len() implies renamed_somewhere(
        old(chip).peripherals@,
        #[trigger] chip.peripherals@[t],
    ) by {
        assert(renamed_from(before, origin[t], fin[t]));
    }
    assert forall|t: int| 0 <= t < chip.peripherals@.len() implies !is_port((#[trigger] chip.peripherals@[t]).1.name@) by {
        let o = origin[t];
        assert(renamed_from(before, o, fin[t]));
        if is_port(before[o].1.name@) {
            assert(fin[t].1.name@ == ("PORT_"@ + seq![before[o].1.name@[4]]));
            assert(("PORT_"@ + seq![before[o].1.name@[4]]).len() == 6) by {
                reveal_strlit("PORT_");
            }
        }
    }
    Ok(())
}

/// Whether a register name is one of the per-pin registers of the newer
/// port layout.
pub open spec fn new_port_register(name: Seq<char>) -> bool {
    name == "DIR"@ || name == "DIRSET"@ || name == "DIRCLR"@ || name == "DIRTGL"@ || name == "OUT"@
        || name == "OUTSET"@ || name == "OUTCLR"@ || name == "OUTTGL"@ || name == "IN"@ || name
        == "INTFLAGS"@
}

/// Whether a register of port `letter` holds one bit per pin: its name ends
/// with the letter, or it is one of the per-pin registers of the newer layout.
pub open spec fn port_register(name: Seq<char>, letter: char) -> bool {
    (name.len() > 0 && name.last() == letter) || new_port_register(name)
}

fn is_port_register(name: &str, letter: &str) -> (r: bool)
    requires
        letter@.len() == 1,
    ensures
        r == port_register(name@, letter@[0]),
{
    let ends = text::ends_with(name, letter);
    assert(letter@ =~= seq![letter@[0]]);
    assert(ends == (name@.len() > 0 && name@.last() == letter@[0])) by {
        if name@.len() > 0 {
            assert(name@.subrange(name@.len() - 1, name@.len() as int) =~= seq![name@.last()]);
        }
    }
    ends || text::equal(name, "DIR") || text::equal(name, "DIRSET") || text::equal(name, "DIRCLR")
        || text::equal(name, "DIRTGL") || text::equal(name, "OUT") || text::equal(name, "OUTSET")
        || text::equal(name, "OUTCLR") || text::equal(name, "OUTTGL") || text::equal(name, "IN")
        || text::equal(name, "INTFLAGS")
}

/// Whether `f` is the one-bit field of pin `f.range.0` of port `letter`.
pub open spec fn is_pin_field(letter: char, f: FieldModel) -> bool {
    &&& f.range.0 == f.range.1
    &&& f.name@ == "P"@ + seq![letter] + decimal_text(f.range.0 as nat)
    &&& opt_view(f.description) == Some("Pin "@ + seq![letter] + decimal_text(f.range.0 as nat))
    &&& f.access == AccessMode::ReadWrite
    &&& f.restriction is Any
}

/// Whether every entry of `t` is a pin field of port `letter`, keyed by its
/// name.
pub open spec fn pin_table(letter: char, t: Seq<(Seq<char>, FieldModel)>) -> bool {
    forall|i: int| 0 <= i < t.len() ==> (#[trigger] t[i]).0 == t[i].1.name@ && is_pin_field(letter, t[i].1)
}

/// Whether a signal element gives an integer pin index.
pub open spec fn pin_ok(el: Element) -> bool {
    attr_of(&el, "index"@) matches Some(t) && is_int_text(t)
}

/// The names of the pin fields of port `letter` that a `signals` element
/// gives: `P`, the letter and the decimal index of each child.
pub open spec fn pin_names(signals: Element, letter: char) -> Seq<Seq<char>> {
    signals.children@.map_values(
        |c: Element| "P"@ + seq![letter] + decimal_text(int_value(attr_of(&c, "index"@)->0) as nat),
    )
}

/// Whether `t` holds exactly the pin fields named `names` of port `letter`.
pub open spec fn pin_fields_exact(letter: char, t: Seq<(Seq<char>, FieldModel)>, names: Seq<Seq<char>>) -> bool {
    &&& pin_table(letter, t)
    &&& forall|k: Seq<char>| has_key(t, k) <==> names.contains(k)
}

/// The pin fields of port `letter`: one for each child of its `signals`
/// element, at the bit that the child's `index` gives.
fn pin_fields(letter: &str, signals: &Element) -> (r: Result<NameMap<Field>, Error>)
    requires
        letter@.len() == 1,
    ensures
        r is Ok <==> forall|i: int|
            0 <= i < signals.children@.len() ==> pin_ok(#[trigger] signals.children@[i]),
        r matches Ok(m) ==> pin_fields_exact(letter@[0], m@, pin_names(*signals, letter@[0])),
{
    let ghost names = pin_names(*signals, letter@[0]);
    let mut m: NameMap<Field> = NameMap::new();
    let mut i: usize = 0;
    assert(letter@ =~= seq![letter@[0]]);
    while i < signals.children.len()
        invariant
            i <= signals.children@.len(),
            letter@ == seq![letter@[0]],
            forall|j: int|
                0 <= j < i ==> pin_ok(#[trigger] signals.children@[j]),
            pin_table(letter@[0], m@),
            names == pin_names(*signals, letter@[0]),
            forall|k: Seq<char>|
                #![trigger has_key(m@, k)]
                has_key(m@, k) <==> names.subrange(0, i as int).contains(k),
        decreases signals.children@.len() - i,
    {
        let pin = parse_int(signals.children[i].attr("index")?.as_str())?;
        assert(pin_ok(signals.children@[i as int]));
        let digits = text::decimal(pin);
        let name = text::join3("P", letter, digits.as_str());
        let description = text::join3("Pin ", letter, digits.as_str());
        let field = Field {
            name: name.clone(),
            description: Some(description),
            range: (pin, pin),
            access: AccessMode::ReadWrite,
            restriction: ValueRestriction::Any,
        };
        let ghost before = m@;
        let ghost fv = field@;
        assert(is_pin_field(letter@[0], fv));
        m.insert(name, field);
        proof {
            assert forall|t: int| 0 <= t < m@.len() implies (#[trigger] m@[t]).0 == m@[t].1.name@
                && is_pin_field(letter@[0], m@[t].1) by {
                if has_key(before, fv.name@) {
                    let q = choose|q: int|
                        0 <= q < before.len() && before[q].0 == fv.name@ && m@ == before.update(q, (fv.name@, fv));
                    if t != q {
                        assert(m@[t] == before[t]);
                    }
                } else {
                    let q = choose|q: int| 0 <= q <= before.len() && m@ == before.insert(q, (fv.name@, fv));
                    if t < q {
                        assert(m@[t] == before[t]);
                    } else if t > q {
                        assert(m@[t] == before[t - 1]);
                    }
                }
            }
            assert(names[i as int] == fv.name@);
            assert forall|k: Seq<char>| #![trigger has_key(m@, k)] has_key(m@, k) <==> names.subrange(0, i + 1).contains(k) by {
                if names.subrange(0, i + 1).contains(k) && k != fv.name@ {
                    let t = choose|t: int| 0 <= t < i + 1 && #[trigger] names.subrange(0, i + 1)[t] == k;
                    assert(names.subrange(0, i as int)[t] == k);
                    assert(has_key(before, k));
                }
                if k != fv.name@ && has_key(before, k) {
                    assert(names.subrange(0, i as int).contains(k));
                    let t = choose|t: int| 0 <= t < i && #[trigger] names.subrange(0, i as int)[t] == k;
                    assert(names.subrange(0, i + 1)[t] == k);
                }
                if k == fv.name@ {
                    assert(names.subrange(0, i + 1)[i as int] == k);
                }
            }
        }
        i = i + 1;
    }
    assert(names.subrange(0, i as int) =~= names);
    Ok(m)
}

/// Whether `after` is the port peripheral `before` with the pin fields of its
/// port on each per-pin register, whose restriction becomes unsafe.
pub open spec fn port_patched(before: PeripheralModel, after: PeripheralModel, names: Seq<Seq<char>>) -> bool {
    let letter = before.name@[4];
    let b = before.register_group.registers;
    let a = after.register_group.registers;
    &&& after == with_registers(before, a)
    &&& a.len() == b.len()
    &&& forall|j: int|
        0 <= j < b.len() ==> (#[trigger] a[j]).0 == b[j].0 && (if port_register(b[j].1.name@, letter) {
            a[j].1 == (RegisterModel { fields: a[j].1.fields, restriction: RestrictionModel::Unsafe, ..b[j].1 })
                && pin_fields_exact(letter, a[j].1.fields, names)
        } else {
            a[j].1 == b[j].1
        })
}

fn patch_port_registers(regs: NameMap<Register>, letter: &str, table: &NameMap<Field>) -> (r: NameMap<Register>)
    requires
        letter@.len() == 1,
        pin_table(letter@[0], table@),
    ensures
        r@.len() == regs@.len(),
        forall|j: int|
            0 <= j < regs@.len() ==> (#[trigger] r@[j]).0 == regs@[j].0 && (if port_register(regs@[j].1.name@, letter@[0]) {
                r@[j].1 == (RegisterModel { fields: r@[j].1.fields, restriction: RestrictionModel::Unsafe, ..regs@[j].1 })
                    && r@[j].1.fields == table@
            } else {
                r@[j].1 == regs@[j].1
            }),
{
    let ghost before = regs@;
    let mut rest = regs.into_entries();
    let mut out: NameMap<Register> = NameMap::new();
    let ghost mut k: int = 0;
    while rest.len() > 0
        invariant
            0 <= k,
            before == regs@,
            letter@.len() == 1,
            pin_table(letter@[0], table@),
            before.len() == k + rest@.len(),
            unique_keys(before),
            crate::name_map::ascending_keys(before),
            forall|j: int| 0 <= j < rest@.len() ==> ((#[trigger] rest@[j]).0@, rest@[j].1@) == before[j + k],
            out@.len() == k,
            forall|j: int|
                0 <= j < k ==> (#[trigger] out@[j]).0 == before[j].0 && (if port_register(before[j].1.name@, letter@[0]) {
                    out@[j].1 == (RegisterModel { fields: out@[j].1.fields, restriction: RestrictionModel::Unsafe, ..before[j].1 })
                        && out@[j].1.fields == table@
                } else {
                    out@[j].1 == before[j].1
                }),
        decreases rest@.len(),
    {
        let (key, mut reg) = rest.remove(0);
        assert((key@, reg@) == before[k]);
        if is_port_register(reg.name.as_str(), letter) {
            reg.fields = table.duplicate();
            reg.restriction = ValueRestriction::Unsafe;
        }
        proof {
            if has_key(out@, key@) {
                let t = choose|t: int| 0 <= t < out@.len() && #[trigger] out@[t].0 == key@;
                assert(before[t].0 != before[k].0);
            }
        }
        let ghost prev = out@;
        proof {
            crate::name_map::lemma_prefix_precedes(before, out@, k);
        }
        out.push_new(key, reg);
        proof {
            assert forall|j: int| 0 <= j < k implies #[trigger] out@[j] == prev[j] by {}
            k = k + 1;
        }
    }
    out
}

/// The `PORT` module under the device's peripherals.
pub open spec fn port_module(tree: Element) -> Element {
    first_carrying(
        first_named(first_named(first_named(tree, "devices"@), "device"@), "peripherals"@),
        carries(Some("module"@), "name"@, "PORT"@),
    )
}

/// Whether the tree lists the `PORT` module under the device's peripherals.
pub open spec fn port_module_found(tree: Element) -> bool {
    let devices = first_named(tree, "devices"@);
    let device = first_named(devices, "device"@);
    let peripherals = first_named(device, "peripherals"@);
    &&& has_child(&tree, named("devices"@))
    &&& has_child(&devices, named("device"@))
    &&& has_child(&device, named("peripherals"@))
    &&& has_child(&peripherals, carries(Some("module"@), "name"@, "PORT"@))
}

/// The instance of the `PORT` module named `name`.
pub open spec fn port_instance(tree: Element, name: Seq<char>) -> Element {
    first_carrying(port_module(tree), carries(Some("instance"@), "name"@, name))
}

/// The `signals` element of the port instance named `name`.
pub open spec fn port_signals(tree: Element, name: Seq<char>) -> Element {
    first_named(port_instance(tree, name), "signals"@)
}

/// Whether the port instance named `name` lists its signals, each with an
/// integer index.
pub open spec fn port_ready(tree: Element, name: Seq<char>) -> bool {
    &&& has_child(&port_module(tree), carries(Some("instance"@), "name"@, name))
    &&& has_child(&port_instance(tree, name), named("signals"@))
    &&& forall|i: int|
        0 <= i < port_signals(tree, name).children@.len() ==> pin_ok(
            #[trigger] port_signals(tree, name).children@[i],
        )
}

/// Whether the pin fields of every port peripheral of `ps` can be read from
/// the tree.
pub open spec fn ports_ok(tree: Element, ps: Seq<(Seq<char>, PeripheralModel)>) -> bool {
    &&& port_module_found(tree)
    &&& forall|i: int| 0 <= i < ps.len() && is_port((#[trigger] ps[i]).1.name@) ==> port_ready(tree, ps[i].1.name@)
}

/// Whether the peripheral table `after` is `before` with the pin fields of
/// the tree's ports on every per-pin register of each port peripheral.
pub open spec fn ports_patched(
    tree: Element,
    before: Seq<(Seq<char>, PeripheralModel)>,
    after: Seq<(Seq<char>, PeripheralModel)>,
) -> bool {
    &&& after.len() == before.len()
    &&& forall|i: int|
        0 <= i < before.len() ==> (#[trigger] after[i]).0 == before[i].0 && (if is_port(
            before[i].1.name@,
        ) {
            port_patched(before[i].1, after[i].1, pin_names(port_signals(tree, before[i].1.name@), before[i].1.name@[4]))
        } else {
            after[i].1 == before[i].1
        })
}

/// Gives every per-pin register of each port peripheral `PORTX` one field per
/// pin, from the pins that the port's instance lists under its `signals`, and
/// makes the register's restriction unsafe. Where the description lacks what
/// this needs, nothing is changed.
pub fn signals_to_port_fields(chip: &mut Chip, tree: &Element) -> (r: Result<(), Error>)
    ensures
        final(chip).name == old(chip).name,
        final(chip).architecture == old(chip).architecture,
        final(chip).family == old(chip).family,
        final(chip).series == old(chip).series,
        final(chip).description == old(chip).description,
        final(chip).vendor == old(chip).vendor,
        final(chip).version == old(chip).version,
        final(chip).interrupts@ == old(chip).interrupts@,
        r is Ok <==> ports_ok(*tree, old(chip).peripherals@),
        r is Err ==> final(chip).peripherals@ == old(chip).peripherals@,
        r is Ok ==> final(chip).peripherals@.len() == old(chip).peripherals@.len(),
        r is Ok ==> forall|i: int|
            0 <= i < old(chip).peripherals@.len() ==> (#[trigger] final(chip).peripherals@[i]).0
                == old(chip).peripherals@[i].0 && (if is_port(old(chip).peripherals@[i].1.name@) {
                port_patched(
                    old(chip).peripherals@[i].1,
                    final(chip).peripherals@[i].1,
                    pin_names(
                        port_signals(*tree, old(chip).peripherals@[i].1.name@),
                        old(chip).peripherals@[i].1.name@[4],
                    ),
                )
            } else {
                final(chip).peripherals@[i].1 == old(chip).peripherals@[i].1
            }),
        r is Ok ==> ports_patched(*tree, old(chip).peripherals@, final(chip).peripherals@),
{
    let devices = tree.first_child("devices")?;
    let device = devices.first_child("device")?;
    let peripherals_el = device.first_child("peripherals")?;
    let port_el = peripherals_el.first_child_by_attr(Some("module"), "name", "PORT")?;
    assert(port_module_found(*tree));
    let ghost ps = chip.peripherals@;
    let mut tables: Vec<Option<NameMap<Field>>> = Vec::new();
    let mut i: usize = 0;
    while i < chip.peripherals.len()
        invariant
            i <= ps.len(),
            ps == chip.peripherals@,
            ps == old(chip).peripherals@,
            chip.interrupts@ == old(chip).interrupts@,
            tables@.len() == i,
            port_module_found(*tree),
            *port_el == port_module(*tree),
            forall|j: int| 0 <= j < i && is_port((#[trigger] ps[j]).1.name@) ==> port_ready(*tree, ps[j].1.name@),
            forall|j: int|
                0 <= j < i ==> ((#[trigger] tables@[j]) is Some <==> is_port(ps[j].1.name@)) && (tables@[j] matches Some(t) ==> pin_fields_exact(ps[j].1.name@[4], t@, pin_names(port_signals(*tree, ps[j].1.name@), ps[j].1.name@[4]))),
        decreases ps.len() - i,
    {
        let p = chip.peripherals.value(i);
        assert(p.name@ == ps[i as int].1.name@);
        match port_letter(p.name.as_str()) {
            Some(letter) => {
                let instance = port_el.first_child_by_attr(Some("instance"), "name", p.name.as_str())?;
                let signals = instance.first_child("signals")?;
                assert(*signals == port_signals(*tree, ps[i as int].1.name@));
                let table = match pin_fields(letter, signals) {
                    Ok(t) => t,
                    Err(e) => {
                        assert(!port_ready(*tree, ps[i as int].1.name@));
                        assert(is_port(ps[i as int].1.name@));
                        return Err(e);
                    },
                };
                assert(port_ready(*tree, ps[i as int].1.name@));
                tables.push(Some(table));
            },
            None => {
                tables.push(None);
            },
        }
        i = i + 1;
    }
    let mut peripherals: NameMap<Peripheral> = NameMap::new();
    std::mem::swap(&mut peripherals, &mut chip.peripherals);
    let mut rest = peripherals.into_entries();
    let mut out: NameMap<Peripheral> = NameMap::new();
    let mut idx: usize = 0;
    let ntables = tables.len();
    while rest.len() > 0
        invariant
            ntables == tables@.len(),
            ps == old(chip).peripherals@,
            ports_ok(*tree, ps),
            chip.interrupts@ == old(chip).interrupts@,
            ps.len() == idx + rest@.len(),
            unique_keys(ps),
            crate::name_map::ascending_keys(ps),
            tables@.len() == ps.len(),
            forall|j: int|
                0 <= j < ps.len() ==> ((#[trigger] tables@[j]) is Some <==> is_port(ps[j].1.name@)) && (tables@[j] matches Some(t) ==> pin_fields_exact(ps[j].1.name@[4], t@, pin_names(port_signals(*tree, ps[j].1.name@), ps[j].1.name@[4]))),
            forall|j: int| 0 <= j < rest@.len() ==> ((#[trigger] rest@[j]).0@, rest@[j].1@) == ps[j + idx],
            out@.len() == idx,
            forall|j: int|
                0 <= j < idx ==> (#[trigger] out@[j]).0 == ps[j].0 && (if is_port(ps[j].1.name@) {
                    port_patched(ps[j].1, out@[j].1, pin_names(port_signals(*tree, ps[j].1.name@), ps[j].1.name@[4]))
                } else {
                    out@[j].1 == ps[j].1
                }),
        decreases rest@.len(),
    {
        let (key, mut p) = rest.remove(0);
        assert((key@, p@) == ps[idx as int]);
        let ghost pv = p@;
        match &tables[idx] {
            Some(table) => {
                let letter = text::owned(p.name.substring_char(4, 5));
                assert(letter@ =~= seq![pv.name@[4]]);
                let mut regs: NameMap<Register> = NameMap::new();
                std::mem::swap(&mut regs, &mut p.register_group.registers);
                p.register_group.registers = patch_port_registers(regs, letter.as_str(), table);
                assert(port_patched(pv, p@, pin_names(port_signals(*tree, pv.name@), pv.name@[4])));
            },
            None => {},
        }
        proof {
            if has_key(out@, key@) {
                let t = choose|t: int| 0 <= t < out@.len() && #[trigger] out@[t].0 == key@;
                assert(ps[t].0 != ps[idx as int].0);
            }
        }
        let ghost prev = out@;
        proof {
            crate::name_map::lemma_prefix_precedes(ps, out@, idx as int);
        }
        out.push_new(key, p);
        proof {
            assert forall|j: int| 0 <= j < idx implies #[trigger] out@[j] == prev[j] by {}
        }
        idx = idx + 1;
    }
    chip.peripherals = out;
    Ok(())
}

} // verus!
