//! Peripherals: module instances placed in the address space.
use vstd::prelude::*;
use crate::chip::{all_registers, own_registers, subgroup_registers, Peripheral, PeripheralModel, Register, RegisterGroup, RegisterGroupModel, RegisterModel, register_models};
use crate::atdf::register_group::{self, build_register_group_hierarchy, resolution, template_ok, template_table};
use crate::atdf::register::same_group_names;
use crate::atdf::values::{self, value_groups_ok, ValueGroups};
use crate::element::{attr_of, carries, first_carrying, has_child, named_among, opt_view, Element};
use crate::error::{lemma_prefix_trans, Error, MissingElement, Warning};
use crate::name_map::{has_key, unique_keys, value_at, Duplicate, NameMap};
use crate::text;
use crate::util::{int_value, is_int_text, parse_int};

verus! {

/// The lowest of `addrs`, if there is any.
pub open spec fn lowest(addrs: Seq<usize>) -> Option<usize>
    decreases addrs.len(),
{
    if addrs.len() == 0 {
        None
    } else {
        match lowest(addrs.drop_last()) {
            None => Some(addrs.last()),
            Some(a) => Some(
                if addrs.last() < a {
                    addrs.last()
                } else {
                    a
                },
            ),
        }
    }
}

/// The addresses of every register under a group, in order.
pub open spec fn register_addresses(g: RegisterGroupModel) -> Seq<usize> {
    all_registers(g).map_values(|r: RegisterModel| r.address)
}

/// A register with its offset lowered by `d`, and by no more than the offset.
pub open spec fn shifted_register(r: RegisterModel, d: int) -> RegisterModel {
    RegisterModel {
        offset: if r.offset >= d {
            (r.offset - d) as usize
        } else {
            0
        },
        ..r
    }
}

/// A subgroup with its offset lowered by `d`, and by no more than the offset.
pub open spec fn shifted_subgroup(g: RegisterGroupModel, d: int) -> RegisterGroupModel {
    RegisterGroupModel {
        offset: if g.offset >= d {
            (g.offset - d) as usize
        } else {
            0
        },
        ..g
    }
}

/// A root group with the offsets relative to the peripheral's base lowered by
/// `d`: those of its own registers and those of its subgroups. Registers
/// inside subgroups keep their offsets, which are relative to their group.
pub open spec fn shifted_group(g: RegisterGroupModel, d: int) -> RegisterGroupModel {
    RegisterGroupModel {
        registers: g.registers.map_values(
            |e: (Seq<char>, RegisterModel)| (e.0, shifted_register(e.1, d)),
        ),
        subgroups: g.subgroups.map_values(|sg: RegisterGroupModel| shifted_subgroup(sg, d)),
        ..g
    }
}

/// A peripheral whose base address is raised to the lowest address of its
/// registers where that lies above it, with the offsets relative to the base
/// (see [`shifted_group`]) lowered by
/// the same amount.
pub open spec fn normalized(p: PeripheralModel) -> PeripheralModel {
    match lowest(register_addresses(p.register_group)) {
        Some(m) => if m > p.address {
            PeripheralModel {
                address: m,
                register_group: shifted_group(p.register_group, m - p.address),
                ..p
            }
        } else {
            p
        },
        None => p,
    }
}

proof fn lemma_flatten_map<A, B>(ss: Seq<Seq<A>>, f: spec_fn(A) -> B)
    ensures
        ss.flatten().map_values(f) =~= ss.map_values(|s: Seq<A>| s.map_values(f)).flatten(),
    decreases ss.len(),
{
    if ss.len() > 0 {
        let init = ss.drop_last();
        lemma_flatten_map(init, f);
        assert(ss =~= init.push(ss.last()));
        init.lemma_flatten_push(ss.last());
        let g = |s: Seq<A>| s.map_values(f);
        assert(ss.map_values(g) =~= init.map_values(g).push(g(ss.last())));
        init.map_values(g).lemma_flatten_push(g(ss.last()));
        assert((init.flatten() + ss.last()).map_values(f) =~= init.flatten().map_values(f)
            + ss.last().map_values(f));
    } else {
        assert(ss.flatten() =~= Seq::<A>::empty());
        assert(ss.map_values(|s: Seq<A>| s.map_values(f)).flatten() =~= Seq::<B>::empty());
    }
}

/// Lowering offsets relative to the base leaves every register address as it
/// was.
pub proof fn lemma_shift_keeps_addresses(g: RegisterGroupModel, d: int)
    ensures
        register_addresses(shifted_group(g, d)) == register_addresses(g),
{
    let a = |r: RegisterModel| r.address;
    let sg = shifted_group(g, d);
    assert(own_registers(sg).map_values(a) =~= own_registers(g).map_values(a));
    assert forall|i: int| 0 <= i < sg.subgroups.len() implies all_registers(#[trigger] sg.subgroups[i])
        == all_registers(g.subgroups[i]) by {
        let x = sg.subgroups[i];
        let y = g.subgroups[i];
        assert(own_registers(x) == own_registers(y));
        assert(subgroup_registers(x) =~= subgroup_registers(y));
    }
    assert(subgroup_registers(sg) =~= subgroup_registers(g));
    assert(all_registers(sg).map_values(a) =~= own_registers(sg).map_values(a) + subgroup_registers(sg).flatten().map_values(a));
    assert(all_registers(g).map_values(a) =~= own_registers(g).map_values(a) + subgroup_registers(g).flatten().map_values(a));
}

/// Normalizing the base address of a peripheral whose base address is
/// already normalized changes nothing.
pub proof fn lemma_normalize_idempotent(p: PeripheralModel)
    ensures
        normalized(normalized(p)) == normalized(p),
{
    match lowest(register_addresses(p.register_group)) {
        Some(m) => if m > p.address {
            lemma_shift_keeps_addresses(p.register_group, m - p.address);
        },
        None => {},
    }
}

/// The lowest address of the registers `regs`, if there is any.
fn lowest_address(regs: &Vec<&Register>) -> (r: Option<usize>)
    ensures
        r == lowest(register_models(regs@).map_values(|m: RegisterModel| m.address)),
{
    let ghost addrs = register_models(regs@).map_values(|m: RegisterModel| m.address);
    let mut best: Option<usize> = None;
    let mut i: usize = 0;
    while i < regs.len()
        invariant
            i <= regs@.len(),
            addrs == register_models(regs@).map_values(|m: RegisterModel| m.address),
            best == lowest(addrs.subrange(0, i as int)),
        decreases regs@.len() - i,
    {
        let a = regs[i].address;
        proof {
            assert(addrs.subrange(0, i + 1).drop_last() =~= addrs.subrange(0, i as int));
            assert(addrs.subrange(0, i + 1).last() == a);
        }
        best = match best {
            None => Some(a),
            Some(b) => Some(
                if a < b {
                    a
                } else {
                    b
                },
            ),
        };
        i = i + 1;
    }
    assert(addrs.subrange(0, i as int) =~= addrs);
    best
}

/// Lowers by `d`, and by no more than each, the offsets relative to the
/// peripheral's base: those of the root group's registers and subgroups.
fn shift_offsets(group: RegisterGroup, d: usize) -> (r: RegisterGroup)
    ensures
        r@ == shifted_group(group@, d as int),
{
    let ghost g0 = group@;
    let mut g = group;
    let mut regs: NameMap<Register> = NameMap::new();
    std::mem::swap(&mut regs, &mut g.registers);
    let ghost before = regs@;
    let mut rest = regs.into_entries();
    let mut out: NameMap<Register> = NameMap::new();
    let ghost mut i: int = 0;
    while rest.len() > 0
        invariant
            0 <= i,
            before.len() == i + rest@.len(),
            unique_keys(before),
            crate::name_map::ascending_keys(before),
            forall|j: int|
                0 <= j < rest@.len() ==> ((#[trigger] rest@[j]).0@, rest@[j].1@) == before[j + i],
            out@ == before.subrange(0, i).map_values(
                |e: (Seq<char>, RegisterModel)| (e.0, shifted_register(e.1, d as int)),
            ),
        decreases rest@.len(),
    {
        let (k, mut reg) = rest.remove(0);
        assert((k@, reg@) == before[i]);
        reg.offset = if reg.offset >= d {
            reg.offset - d
        } else {
            0
        };
        proof {
            if has_key(out@, k@) {
                let t = choose|t: int| 0 <= t < out@.len() && #[trigger] out@[t].0 == k@;
                assert(before.subrange(0, i)[t] == before[t]);
                assert(before[t].0 != before[i].0);
            }
        }
        let ghost prev = out@;
        proof {
            assert forall|t: int| 0 <= t < out@.len() implies (#[trigger] out@[t]).0 == before[t].0 by {
                assert(before.subrange(0, i)[t] == before[t]);
            }
            crate::name_map::lemma_prefix_precedes(before, out@, i);
        }
        out.push_new(k, reg);
        proof {
            assert(out@ =~= before.subrange(0, i + 1).map_values(
                |e: (Seq<char>, RegisterModel)| (e.0, shifted_register(e.1, d as int)),
            ));
            i = i + 1;
        }
    }
    assert(before.subrange(0, i) =~= before);
    g.registers = out;
    let mut subs: Vec<RegisterGroup> = Vec::new();
    std::mem::swap(&mut subs, &mut g.subgroups);
    let ghost subs0 = subs@;
    let mut shifted: Vec<RegisterGroup> = Vec::new();
    let ghost mut k: int = 0;
    while subs.len() > 0
        invariant
            0 <= k,
            subs0.len() == k + subs@.len(),
            subs0 == group.subgroups@,
            forall|j: int| 0 <= j < subs@.len() ==> #[trigger] subs@[j] == subs0[j + k],
            shifted@.len() == k,
            forall|j: int|
                0 <= j < k ==> (#[trigger] shifted@[j])@ == shifted_subgroup(subs0[j]@, d as int),
        decreases subs@.len(),
    {
        let mut s = subs.remove(0);
        assert(s == subs0[k]);
        let ghost s0 = s@;
        s.offset = if s.offset >= d {
            s.offset - d
        } else {
            0
        };
        assert(s@.subgroups =~= s0.subgroups);
        assert(s@ == shifted_subgroup(s0, d as int));
        shifted.push(s);
        proof {
            k = k + 1;
        }
    }
    g.subgroups = shifted;
    proof {
        assert(g@.subgroups =~= shifted_group(g0, d as int).subgroups) by {
            assert forall|j: int| 0 <= j < g@.subgroups.len() implies g@.subgroups[j]
                == shifted_group(g0, d as int).subgroups[j] by {
                assert(g.subgroups@[j]@ == shifted_subgroup(subs0[j]@, d as int));
            }
        }
        assert(g@.references == g0.references);
    }
    g
}

/// Raises the base address of `p` to the lowest address of its registers
/// where that lies above it, and lowers the offsets relative to the base
/// (see [`shifted_group`]) by the same
/// amount; register addresses stay as they are.
pub fn normalize_base_address(p: &mut Peripheral)
    ensures
        final(p)@ == normalized(old(p)@),
{
    let regs = p.register_group.get_all_registers();
    proof {
        assert(register_models(regs@).map_values(|m: RegisterModel| m.address) =~= register_addresses(p@.register_group));
    }
    match lowest_address(&regs) {
        Some(m) => if m > p.address {
            let d = m - p.address;
            let mut group = RegisterGroup {
                name: String::new(),
                description: None,
                offset: 0,
                is_union: false,
                references: Vec::new(),
                subgroups: Vec::new(),
                registers: NameMap::new(),
            };
            std::mem::swap(&mut group, &mut p.register_group);
            p.register_group = shift_offsets(group, d);
            p.address = m;
        },
        None => {},
    }
}

/// The `instance` children of each `module` child of `el`, module by module.
pub open spec fn module_parts(el: Element) -> Seq<Seq<Element>> {
    named_among(el.children@, "module"@).map_values(|m: Element| named_among(m.children@, "instance"@))
}

/// Every module instance that a `peripherals` element lists, in order.
pub open spec fn instance_elements(el: Element) -> Seq<Element> {
    module_parts(el).flatten()
}

/// The names of instance elements.
pub open spec fn instance_names(v: Seq<Element>) -> Seq<Seq<char>> {
    v.map_values(|e: Element| attr_of(&e, "name"@)->0)
}

/// The names of peripherals.
pub open spec fn peripheral_names(v: Seq<Peripheral>) -> Seq<Seq<char>> {
    v.map_values(|p: Peripheral| p.name@)
}

/// The description of a peripheral: the instance's caption, else the
/// module's, where it is not empty.
pub open spec fn instance_description(instance: Element, module: Element) -> Option<Seq<char>> {
    let c = match attr_of(&instance, "caption"@) {
        Some(c) => Some(c),
        None => attr_of(&module, "caption"@),
    };
    match c {
        Some(t) => if t.len() > 0 {
            Some(t)
        } else {
            None
        },
        None => None,
    }
}

/// Whether `groups` holds exactly the value-group names that `module`
/// declares.
pub open spec fn group_keys_of(
    module: Element,
    groups: Seq<(Seq<char>, Seq<(Seq<char>, crate::chip::EnumeratedValue)>)>,
) -> bool {
    let gs = named_among(module.children@, "value-group"@);
    forall|k: Seq<char>|
        has_key(groups, k) <==> exists|i: int| 0 <= i < gs.len() && attr_of(&#[trigger] gs[i], "name"@) == Some(k)
}

/// Whether a register-group element of an instance can be read with the
/// templates of `module`: it names a template and gives an integer offset,
/// the templates can be read at that offset, the named one exists, and its
/// references resolve in every template table that the module gives there,
/// whatever the enumerations.
pub open spec fn instance_group_ok(
    module: Element,
    g: Element,
    groups: Seq<(Seq<char>, Seq<(Seq<char>, crate::chip::EnumeratedValue)>)>,
) -> bool {
    let ts = named_among(module.children@, "register-group"@);
    &&& attr_of(&g, "name-in-module"@) is Some
    &&& attr_of(&g, "offset"@) matches Some(o) && is_int_text(o)
    &&& {
        let n = attr_of(&g, "name-in-module"@)->0;
        let off = int_value(attr_of(&g, "offset"@)->0) as usize;
        &&& forall|j: int| 0 <= j < ts.len() ==> template_ok(#[trigger] ts[j], off, groups)
        &&& exists|j: int| 0 <= j < ts.len() && attr_of(&#[trigger] ts[j], "name"@) == Some(n)
        &&& forall|g2: Seq<(Seq<char>, Seq<(Seq<char>, crate::chip::EnumeratedValue)>)>, t: Seq<(Seq<char>, RegisterGroupModel)>|
            #[trigger] template_table(module, off, g2, t) ==> resolution(t, value_at(t, n), off as int, 0) is Ok
    }
}

proof fn lemma_resolves_in_every_table_any(
    module: Element,
    address: usize,
    g1: Seq<(Seq<char>, Seq<(Seq<char>, crate::chip::EnumeratedValue)>)>,
    t1: Seq<(Seq<char>, RegisterGroupModel)>,
    n: Seq<char>,
)
    requires
        template_table(module, address, g1, t1),
        has_key(t1, n),
        resolution(t1, value_at(t1, n), address as int, 0) is Ok,
    ensures
        forall|g2: Seq<(Seq<char>, Seq<(Seq<char>, crate::chip::EnumeratedValue)>)>, t: Seq<(Seq<char>, RegisterGroupModel)>|
            #[trigger] template_table(module, address, g2, t) ==> resolution(t, value_at(t, n), address as int, 0) is Ok,
{
    assert forall|g2: Seq<(Seq<char>, Seq<(Seq<char>, crate::chip::EnumeratedValue)>)>, t: Seq<(Seq<char>, RegisterGroupModel)>|
        #[trigger] template_table(module, address, g2, t) implies resolution(t, value_at(t, n), address as int, 0) is Ok by {
        register_group::lemma_resolves_in_every_table(module, address, g1, g2, t1, n);
    }
}

/// Whether an instance of `module` can be read: it has a name and each of
/// its register groups can be read.
pub open spec fn instance_ok(
    instance: Element,
    module: Element,
    groups: Seq<(Seq<char>, Seq<(Seq<char>, crate::chip::EnumeratedValue)>)>,
) -> bool {
    let gs = named_among(instance.children@, "register-group"@);
    &&& attr_of(&instance, "name"@) is Some
    &&& forall|j: int| 0 <= j < gs.len() ==> instance_group_ok(module, #[trigger] gs[j], groups)
}

/// The module of `modules` named `name`.
pub open spec fn module_def(modules: Element, name: Seq<char>) -> Element {
    first_carrying(modules, carries(Some("module"@), "name"@, name))
}

/// Whether the instances of a module element listed under the device's
/// peripherals can be read with the module of that name in `modules`.
pub open spec fn module_ok(m: Element, modules: Element) -> bool {
    let insts = named_among(m.children@, "instance"@);
    &&& attr_of(&m, "name"@) is Some
    &&& insts.len() > 0 ==> {
        let mn = attr_of(&m, "name"@)->0;
        let def = module_def(modules, mn);
        &&& has_child(&modules, carries(Some("module"@), "name"@, mn))
        &&& value_groups_ok(def)
        &&& forall|groups: Seq<(Seq<char>, Seq<(Seq<char>, crate::chip::EnumeratedValue)>)>|
            #[trigger] group_keys_of(def, groups) ==> forall|k: int|
                0 <= k < insts.len() ==> instance_ok(#[trigger] insts[k], def, groups)
    }
}

/// Whether an instance can be read depends on the enumerations only through
/// their names.
pub proof fn lemma_instance_ok_names(
    instance: Element,
    module: Element,
    g1: Seq<(Seq<char>, Seq<(Seq<char>, crate::chip::EnumeratedValue)>)>,
    g2: Seq<(Seq<char>, Seq<(Seq<char>, crate::chip::EnumeratedValue)>)>,
)
    requires
        group_keys_of(module, g1),
        group_keys_of(module, g2),
        instance_ok(instance, module, g1),
    ensures
        instance_ok(instance, module, g2),
{
    assert(same_group_names(g1, g2)) by {
        assert forall|k: Seq<char>| #[trigger] has_key(g1, k) == has_key(g2, k) by {}
    }
    let gs = named_among(instance.children@, "register-group"@);
    let ts = named_among(module.children@, "register-group"@);
    assert forall|j: int| 0 <= j < gs.len() implies instance_group_ok(module, #[trigger] gs[j], g2) by {
        assert(instance_group_ok(module, gs[j], g1));
        let off = int_value(attr_of(&gs[j], "offset"@)->0) as usize;
        assert forall|c: int| 0 <= c < ts.len() implies template_ok(#[trigger] ts[c], off, g2) by {
            register_group::lemma_template_ok_names(ts[c], off, g1, g2);
        }
    }
}

/// Whether every module instance that a `peripherals` element lists can be
/// read.
pub open spec fn instances_ok(el: Element, modules: Element) -> bool {
    let ms = named_among(el.children@, "module"@);
    forall|i: int| 0 <= i < ms.len() ==> module_ok(#[trigger] ms[i], modules)
}

/// Whether `r` is the template that the instance's register-group element
/// `e` names, resolved at the offset that `e` gives.
pub open spec fn group_resolved(
    module: Element,
    groups: Seq<(Seq<char>, Seq<(Seq<char>, crate::chip::EnumeratedValue)>)>,
    e: Element,
    r: RegisterGroupModel,
) -> bool {
    let off = int_value(attr_of(&e, "offset"@)->0) as usize;
    let n = attr_of(&e, "name-in-module"@)->0;
    exists|t: Seq<(Seq<char>, RegisterGroupModel)>|
        #[trigger] template_table(module, off, groups, t) && resolution(t, value_at(t, n), off as int, 0)
            == Ok::<RegisterGroupModel, register_group::ResolveFailure>(r)
}

/// Whether `root` is the template `n` of `module`, resolved at `address`,
/// followed in its subgroups by the groups that the register-group elements
/// `extra` name, each resolved at its own offset, in order.
pub open spec fn root_from(
    module: Element,
    groups: Seq<(Seq<char>, Seq<(Seq<char>, crate::chip::EnumeratedValue)>)>,
    n: Seq<char>,
    address: usize,
    extra: Seq<Element>,
    root: RegisterGroupModel,
) -> bool {
    exists|t: Seq<(Seq<char>, RegisterGroupModel)>|
        #[trigger] template_table(module, address, groups, t) && resolution(
            t,
            value_at(t, n),
            address as int,
            0,
        ) is Ok && {
            let g = resolution(t, value_at(t, n), address as int, 0)->Ok_0;
            &&& root == (RegisterGroupModel { subgroups: root.subgroups, ..g })
            &&& g.subgroups.is_prefix_of(root.subgroups)
            &&& root.subgroups.len() == g.subgroups.len() + extra.len()
            &&& forall|j: int|
                0 <= j < extra.len() ==> group_resolved(
                    module,
                    groups,
                    #[trigger] extra[j],
                    root.subgroups[g.subgroups.len() + j],
                )
        }
}

/// Whether `q` is the peripheral that an instance of `module` declares,
/// before its base address is normalized: its base address and root group
/// come from its first register group (the template of that name resolved at
/// that group's offset), and it has neither without one.
pub open spec fn instance_layout(
    instance: Element,
    module: Element,
    groups: Seq<(Seq<char>, Seq<(Seq<char>, crate::chip::EnumeratedValue)>)>,
    q: PeripheralModel,
) -> bool {
    let gs = named_among(instance.children@, "register-group"@);
    &&& gs.len() > 0 ==> {
        &&& q.address == int_value(attr_of(&gs[0], "offset"@)->0)
        &&& Some(q.name_in_module@) == attr_of(&gs[0], "name-in-module"@)
        &&& root_from(module, groups, q.name_in_module@, q.address, gs.skip(1), q.register_group)
    }
    &&& gs.len() == 0 ==> q.address == 0 && q.register_group.registers.len() == 0
        && q.register_group.subgroups.len() == 0
}

/// Whether `p` is the peripheral read from `instance`, an instance of
/// `module`: its name and description, its normalized base address, and its
/// layout before normalization, read with the module's value groups.
pub open spec fn peripheral_read(instance: Element, module: Element, p: PeripheralModel) -> bool {
    &&& Some(p.name@) == attr_of(&instance, "name"@)
    &&& opt_view(p.description) == instance_description(instance, module)
    &&& normalized(p) == p
    &&& p.register_group.references.len() == 0
    &&& exists|groups: Seq<(Seq<char>, Seq<(Seq<char>, crate::chip::EnumeratedValue)>)>, q: PeripheralModel|
        values::value_groups_of(module, groups) && normalized(q) == p && #[trigger] instance_layout(instance, module, groups, q)
}

/// Whether `p` is the peripheral read from `instance`, an instance listed by
/// one of the module elements under `el`, with the module of that name in
/// `modules`.
pub open spec fn instance_read(el: Element, modules: Element, instance: Element, p: PeripheralModel) -> bool {
    let ms = named_among(el.children@, "module"@);
    exists|i: int|
        0 <= i < ms.len() && named_among(ms[i].children@, "instance"@).contains(instance) && #[trigger] peripheral_read(
            instance,
            module_def(modules, attr_of(&ms[i], "name"@)->0),
            p,
        )
}

/// An empty register group named `name`.
fn empty_group(name: String) -> (r: RegisterGroup)
    ensures
        r@.name == name,
        r@.references.len() == 0,
        r@.subgroups.len() == 0,
        r@.registers.len() == 0,
{
    let r = RegisterGroup {
        name,
        description: None,
        offset: 0,
        is_union: false,
        references: Vec::new(),
        subgroups: Vec::new(),
        registers: NameMap::new(),
    };
    assert(r@.subgroups =~= Seq::<RegisterGroupModel>::empty());
    r
}

/// Reads one instance of `module`: each of its register groups is the
/// module's template of that name, resolved at the group's offset; the first
/// is the peripheral's root group and gives its base address, the others
/// become subgroups of it. The base address is then normalized.
fn parse_instance(
    instance: &Element,
    module: &Element,
    module_name: &String,
    value_groups: &ValueGroups,
    warnings: &mut Vec<Warning>,
) -> (r: Result<Peripheral, Error>)
    ensures
        instance_ok(*instance, *module, value_groups@) ==> r is Ok,
        r is Ok ==> instance_ok(*instance, *module, value_groups@),
        r matches Ok(p) ==> normalized(p@) == p@ && p@.register_group.references.len() == 0,
        r matches Ok(p) ==> Some(p.name@) == attr_of(instance, "name"@),
        r matches Ok(p) ==> opt_view(p.description) == instance_description(*instance, *module),
        r matches Ok(p) ==> exists|q: PeripheralModel|
            #[trigger] normalized(q) == p@ && instance_layout(*instance, *module, value_groups@, q),
        old(warnings)@.is_prefix_of(final(warnings)@),
{
    let ghost w0 = warnings@;
    let name = match instance.attr("name") {
        Ok(n) => n.clone(),
        Err(e) => {
            assert(!instance_ok(*instance, *module, value_groups@));
            return Err(e);
        },
    };
    let caption = match instance.attr_opt("caption") {
        Some(c) => Some(c),
        None => module.attr_opt("caption"),
    };
    let description = match caption {
        Some(c) => if c.unicode_len() > 0 {
            Some(c.clone())
        } else {
            None
        },
        None => None,
    };
    let group_els = instance.children_named("register-group");
    let ghost gs = named_among(instance.children@, "register-group"@);
    assert(group_els@.len() == gs.len());
    assert(opt_view(description) == instance_description(*instance, *module));
    let mut root = empty_group(name.clone());
    let mut have_root = false;
    let mut address: usize = 0;
    let mut name_in_module = module_name.clone();
    let mut i: usize = 0;
    while i < group_els.len()
        invariant
            i <= group_els@.len(),
            group_els@.len() == gs.len(),
            gs == named_among(instance.children@, "register-group"@),
            forall|j: int| 0 <= j < gs.len() ==> *group_els@[j] == #[trigger] gs[j],
            opt_view(description) == instance_description(*instance, *module),
            attr_of(instance, "name"@) is Some,
            Some(name@) == attr_of(instance, "name"@),
            have_root == (i > 0),
            i > 0 ==> address == int_value(attr_of(&gs[0], "offset"@)->0),
            i > 0 ==> Some(name_in_module@) == attr_of(&gs[0], "name-in-module"@),
            i > 0 ==> root_from(*module, value_groups@, name_in_module@, address, gs.subrange(1, i as int), root@),
            i == 0 ==> address == 0 && root@.registers.len() == 0 && root@.subgroups.len() == 0,
            forall|j: int| 0 <= j < i ==> instance_group_ok(*module, #[trigger] gs[j], value_groups@),
            root@.references.len() == 0,
            w0.is_prefix_of(warnings@),
            w0 == old(warnings)@,
        decreases group_els@.len() - i,
    {
        let g = group_els[i];
        assert(*g == gs[i as int]);
        let template_name = match g.attr("name-in-module") {
            Ok(n) => n,
            Err(e) => {
                assert(!instance_group_ok(*module, gs[i as int], value_groups@));
                return Err(e);
            },
        };
        let offset_text = match g.attr("offset") {
            Ok(o) => o,
            Err(e) => {
                assert(!instance_group_ok(*module, gs[i as int], value_groups@));
                return Err(e);
            },
        };
        let offset = match parse_int(offset_text.as_str()) {
            Ok(o) => o,
            Err(e) => {
                assert(!instance_group_ok(*module, gs[i as int], value_groups@));
                return Err(e);
            },
        };
        let ghost w1 = warnings@;
        let parsed = register_group::parse_list(module, offset, value_groups, warnings);
        proof {
            lemma_prefix_trans(w0, w1, warnings@);
        }
        let mut templates = match parsed {
            Ok(t) => t,
            Err(e) => {
                assert(!instance_group_ok(*module, gs[i as int], value_groups@));
                return Err(e);
            },
        };
        let ghost tv = templates@;
        let mut group = match templates.get(template_name.as_str()) {
            Some(t) => t.duplicate(),
            None => {
                proof {
                    let ts = named_among(module.children@, "register-group"@);
                    if exists|j: int| 0 <= j < ts.len() && attr_of(&#[trigger] ts[j], "name"@) == Some(template_name@) {
                        let j = choose|j: int| 0 <= j < ts.len() && attr_of(&#[trigger] ts[j], "name"@) == Some(template_name@);
                        assert(has_key(tv, template_name@));
                    }
                    assert(!instance_group_ok(*module, gs[i as int], value_groups@));
                }
                let what = text::join3("<register-group name=\"", template_name.as_str(), "\">");
                return Err(Error::MissingElement(MissingElement(what, module.debug())));
            },
        };
        match build_register_group_hierarchy(&mut group, &mut templates, offset, 0) {
            Ok(()) => {},
            Err(e) => {
                proof {
                    assert(template_table(*module, offset, value_groups@, tv));
                    assert(!instance_group_ok(*module, gs[i as int], value_groups@));
                }
                return Err(e);
            },
        }
        proof {
            assert(has_key(tv, template_name@));
            lemma_resolves_in_every_table_any(*module, offset, value_groups@, tv, template_name@);
            let ts = named_among(module.children@, "register-group"@);
            assert(exists|j: int| 0 <= j < ts.len() && attr_of(&#[trigger] ts[j], "name"@) == Some(template_name@));
            assert(instance_group_ok(*module, gs[i as int], value_groups@));
        }
        if have_root {
            let ghost before = root@;
            let ghost gv = group@;
            proof {
                assert(group_resolved(*module, value_groups@, gs[i as int], gv)) by {
                    assert(template_table(*module, offset, value_groups@, tv));
                }
            }
            root.subgroups.push(group);
            assert(root@.references == before.references);
            proof {
                let extra0 = gs.subrange(1, i as int);
                let extra1 = gs.subrange(1, i + 1);
                let t = choose|t: Seq<(Seq<char>, RegisterGroupModel)>|
                    #[trigger] template_table(*module, address, value_groups@, t) && resolution(
                        t,
                        value_at(t, name_in_module@),
                        address as int,
                        0,
                    ) is Ok && {
                        let g = resolution(t, value_at(t, name_in_module@), address as int, 0)->Ok_0;
                        &&& before == (RegisterGroupModel { subgroups: before.subgroups, ..g })
                        &&& g.subgroups.is_prefix_of(before.subgroups)
                        &&& before.subgroups.len() == g.subgroups.len() + extra0.len()
                        &&& forall|j: int|
                            0 <= j < extra0.len() ==> group_resolved(
                                *module,
                                value_groups@,
                                #[trigger] extra0[j],
                                before.subgroups[g.subgroups.len() + j],
                            )
                    };
                let g = resolution(t, value_at(t, name_in_module@), address as int, 0)->Ok_0;
                assert(root@.subgroups =~= before.subgroups.push(gv));
                assert(root@ == (RegisterGroupModel { subgroups: root@.subgroups, ..g }));
                assert(g.subgroups.is_prefix_of(root@.subgroups));
                assert forall|j: int| 0 <= j < extra1.len() implies group_resolved(
                    *module,
                    value_groups@,
                    #[trigger] extra1[j],
                    root@.subgroups[g.subgroups.len() + j],
                ) by {
                    if j < extra0.len() {
                        assert(extra1[j] == extra0[j]);
                        assert(root@.subgroups[g.subgroups.len() + j] == before.subgroups[g.subgroups.len() + j]);
                    } else {
                        assert(extra1[j] == gs[i as int]);
                        assert(root@.subgroups[g.subgroups.len() + j] == gv);
                    }
                }
            }
        } else {
            let ghost gv = group@;
            root = group;
            have_root = true;
            address = offset;
            name_in_module = template_name.clone();
            proof {
                assert(template_table(*module, address, value_groups@, tv));
                assert(resolution(tv, value_at(tv, name_in_module@), address as int, 0) == Ok::<RegisterGroupModel, register_group::ResolveFailure>(gv));
                assert(root@ == (RegisterGroupModel { subgroups: root@.subgroups, ..gv }));
                assert(gv.subgroups.is_prefix_of(root@.subgroups));
                assert(gs.subrange(1, 1).len() == 0);
            }
        }
        i = i + 1;
    }
    let mut p = Peripheral { name, name_in_module, description, address, register_group: root };
    let ghost p0 = p@;
    proof {
        if gs.len() > 0 {
            assert(gs.subrange(1, i as int) =~= gs.skip(1));
        }
    }
    assert(instance_layout(*instance, *module, value_groups@, p0));
    normalize_base_address(&mut p);
    proof {
        lemma_normalize_idempotent(p0);
    }
    Ok(p)
}

/// Reads the peripherals of a device: one for each instance of each module
/// that the `peripherals` element lists, shaped by the module of that name in
/// `modules`. Every peripheral comes out with its base address normalized and
/// its references resolved.
pub fn parse_list(el: &Element, modules: &Element, warnings: &mut Vec<Warning>) -> (r: Result<
    Vec<Peripheral>,
    Error,
>)
    ensures
        r matches Ok(v) ==> forall|i: int|
            0 <= i < v@.len() ==> normalized((#[trigger] v@[i])@) == v@[i]@ && v@[i]@.register_group.references.len()
                == 0,
        r matches Ok(v) ==> peripheral_names(v@) == instance_names(instance_elements(*el)),
        r matches Ok(v) ==> forall|j: int|
            0 <= j < v@.len() ==> instance_read(*el, *modules, instance_elements(*el)[j], #[trigger] v@[j]@),
        r is Ok <==> instances_ok(*el, *modules),
        old(warnings)@.is_prefix_of(final(warnings)@),
{
    let ghost w0 = warnings@;
    let mut peripherals: Vec<Peripheral> = Vec::new();
    let module_els = el.children_named("module");
    let ghost parts = module_parts(*el);
    assert(module_els@.len() == parts.len());
    assert(parts.subrange(0, 0).flatten() =~= Seq::<Element>::empty());
    assert(peripheral_names(peripherals@) =~= instance_names(Seq::<Element>::empty()));
    let mut i: usize = 0;
    while i < module_els.len()
        invariant
            i <= module_els@.len(),
            parts == module_parts(*el),
            module_els@.len() == named_among(el.children@, "module"@).len(),
            forall|j: int| 0 <= j < module_els@.len() ==> *module_els@[j] == #[trigger] named_among(el.children@, "module"@)[j],
            forall|j: int| 0 <= j < i ==> module_ok(#[trigger] named_among(el.children@, "module"@)[j], *modules),
            module_els@.len() == parts.len(),
            forall|j: int| 0 <= j < parts.len() ==> #[trigger] parts[j] == named_among(module_els@[j].children@, "instance"@),
            peripheral_names(peripherals@) == instance_names(parts.subrange(0, i as int).flatten()),
            forall|j: int|
                0 <= j < peripherals@.len() ==> instance_read(*el, *modules, parts.subrange(0, i as int).flatten()[j], #[trigger] peripherals@[j]@),
            forall|j: int|
                0 <= j < peripherals@.len() ==> normalized((#[trigger] peripherals@[j])@) == peripherals@[j]@
                    && peripherals@[j]@.register_group.references.len() == 0,
            w0.is_prefix_of(warnings@),
            w0 == old(warnings)@,
        decreases module_els@.len() - i,
    {
        let ghost mi = named_among(el.children@, "module"@)[i as int];
        assert(*module_els@[i as int] == mi);
        let module_name = match module_els[i].attr("name") {
            Ok(n) => n,
            Err(e) => {
                assert(!module_ok(mi, *modules));
                    assert(!instances_ok(*el, *modules));
                return Err(e);
            },
        };
        let instances = module_els[i].children_named("instance");
        let ghost done = parts.subrange(0, i as int).flatten();
        let ghost part = parts[i as int];
        assert(instances@.len() == part.len());
        assert(part.subrange(0, 0) =~= Seq::<Element>::empty());
        assert(done + part.subrange(0, 0) =~= done);
        let mut k: usize = 0;
        while k < instances.len()
            invariant
                k <= instances@.len(),
                instances@.len() == part.len(),
                forall|j: int| 0 <= j < part.len() ==> *instances@[j] == #[trigger] part[j],
                i < named_among(el.children@, "module"@).len(),
                mi == named_among(el.children@, "module"@)[i as int],
                part == named_among(mi.children@, "instance"@),
                Some(module_name@) == attr_of(&mi, "name"@),
                forall|j: int| 0 <= j < i ==> module_ok(#[trigger] named_among(el.children@, "module"@)[j], *modules),
                k > 0 ==> has_child(modules, carries(Some("module"@), "name"@, module_name@)),
                k > 0 ==> value_groups_ok(module_def(*modules, module_name@)),
                forall|kk: int, groups: Seq<(Seq<char>, Seq<(Seq<char>, crate::chip::EnumeratedValue)>)>|
                    0 <= kk < k && group_keys_of(module_def(*modules, module_name@), groups) ==> #[trigger] instance_ok(
                        part[kk],
                        module_def(*modules, module_name@),
                        groups,
                    ),
                peripheral_names(peripherals@) == instance_names(done + part.subrange(0, k as int)),
                forall|j: int|
                    0 <= j < peripherals@.len() ==> instance_read(*el, *modules, (done + part.subrange(0, k as int))[j], #[trigger] peripherals@[j]@),
                done == parts.subrange(0, i as int).flatten(),
                forall|j: int|
                    0 <= j < peripherals@.len() ==> normalized((#[trigger] peripherals@[j])@)
                        == peripherals@[j]@ && peripherals@[j]@.register_group.references.len() == 0,
                w0.is_prefix_of(warnings@),
                w0 == old(warnings)@,
            decreases instances@.len() - k,
        {
            let module = match modules.first_child_by_attr(Some("module"), "name", module_name.as_str()) {
                Ok(m) => m,
                Err(e) => {
                    assert(!module_ok(mi, *modules));
                    assert(!instances_ok(*el, *modules));
                    return Err(e);
                },
            };
            let value_groups = match values::parse_value_groups(module) {
                Ok(g) => g,
                Err(e) => {
                    assert(!module_ok(mi, *modules));
                    assert(!instances_ok(*el, *modules));
                    return Err(e);
                },
            };
            let ghost w1 = warnings@;
            let p = parse_instance(instances[k], module, module_name, &value_groups, warnings);
            proof {
                lemma_prefix_trans(w0, w1, warnings@);
            }
            let p = match p {
                Ok(p) => p,
                Err(e) => {
                    proof {
                        assert(group_keys_of(*module, value_groups@));
                        assert(!instance_ok(part[k as int], *module, value_groups@));
                        assert(!module_ok(mi, *modules));
                    assert(!instances_ok(*el, *modules));
                    }
                    return Err(e);
                },
            };
            let ghost before = peripherals@;
            assert(*instances@[k as int] == part[k as int]);
            proof {
                assert(instance_ok(part[k as int], *module, value_groups@));
                assert forall|groups: Seq<(Seq<char>, Seq<(Seq<char>, crate::chip::EnumeratedValue)>)>|
                    #[trigger] group_keys_of(module_def(*modules, module_name@), groups) implies instance_ok(
                        part[k as int],
                        module_def(*modules, module_name@),
                        groups,
                    ) by {
                    lemma_instance_ok_names(part[k as int], *module, value_groups@, groups);
                }
                assert(*module == module_def(*modules, module_name@));
                assert(part.contains(part[k as int]));
                let q = choose|q: PeripheralModel| #[trigger] normalized(q) == p@ && instance_layout(part[k as int], *module, value_groups@, q);
                assert(instance_layout(part[k as int], *module, value_groups@, q));
                assert(peripheral_read(part[k as int], *module, p@));
                assert(attr_of(&mi, "name"@)->0 == module_name@);
                assert(named_among(el.children@, "module"@)[i as int] == mi);
                assert(peripheral_read(
                    part[k as int],
                    module_def(*modules, attr_of(&named_among(el.children@, "module"@)[i as int], "name"@)->0),
                    p@,
                ));
                assert(instance_read(*el, *modules, part[k as int], p@));
                assert(peripheral_names(before).len() == before.len());
                assert(instance_names(done + part.subrange(0, k as int)).len() == (done + part.subrange(0, k as int)).len());
                assert(before.len() == done.len() + k);
            }
            peripherals.push(p);
            proof {
                assert forall|j: int| 0 <= j < peripherals@.len() implies instance_read(*el, *modules, (done + part.subrange(0, k + 1))[j], #[trigger] peripherals@[j]@) by {
                    if j < before.len() {
                        assert(peripherals@[j] == before[j]);
                        assert((done + part.subrange(0, k + 1))[j] == (done + part.subrange(0, k as int))[j]);
                    } else {
                        assert((done + part.subrange(0, k + 1))[j] == part[k as int]);
                    }
                }
                assert(done + part.subrange(0, k + 1) =~= (done + part.subrange(0, k as int)).push(part[k as int]));
                assert(peripheral_names(peripherals@) =~= peripheral_names(before).push(peripherals@.last().name@));
                assert(instance_names((done + part.subrange(0, k as int)).push(part[k as int])) =~= instance_names(done + part.subrange(0, k as int)).push(attr_of(&part[k as int], "name"@)->0));
            }
            k = k + 1;
        }
        proof {
            let def = module_def(*modules, module_name@);
            assert forall|groups: Seq<(Seq<char>, Seq<(Seq<char>, crate::chip::EnumeratedValue)>)>|
                #[trigger] group_keys_of(def, groups) implies forall|kk: int|
                    0 <= kk < part.len() ==> instance_ok(#[trigger] part[kk], def, groups) by {
                assert forall|kk: int| 0 <= kk < part.len() implies instance_ok(#[trigger] part[kk], def, groups) by {
                    assert(instance_ok(part[kk], def, groups));
                }
            }
            assert(module_ok(mi, *modules));
            assert(part.subrange(0, k as int) =~= part);
            assert(parts.subrange(0, i + 1) =~= parts.subrange(0, i as int).push(part));
            parts.subrange(0, i as int).lemma_flatten_push(part);
        }
        i = i + 1;
    }
    assert(parts.subrange(0, i as int) =~= parts);
    Ok(peripherals)
}

} // verus!
