//! Register-group templates and their instantiation into a tree.
use vstd::prelude::*;
use crate::chip::{RegisterGroup, RegisterGroupModel, RegisterGroupReference, RegisterModel, Register};
use crate::atdf::register::{self, lemma_register_tables_offsets, lemma_registers_ok_names, register_table, registers_at, registers_ok, same_group_names};
use crate::atdf::values::ValueGroups;
use crate::element::{attr_of, named_among, nonempty_attr_of, opt_view, Element};
use crate::error::{lemma_prefix_trans, Error, RecursiveRegisterGroupError, Warning};
use crate::text;
use crate::util::{int_value, is_int_text, parse_int};
use crate::name_map::{has_key, unique_keys, value_at, Duplicate, NameMap};

verus! {

/// The deepest level at which a group may still be instantiated.
pub const MAX_NESTING: usize = 20;

/// Why a group cannot be resolved.
#[derive(Debug, Clone, Copy, PartialEq, Eq, Structural)]
pub enum ResolveFailure {
    /// References nest deeper than [`MAX_NESTING`].
    Depth,
    /// An address does not fit in a `usize`.
    Overflow,
}

/// Whether a `register-group` item element can be read as a reference: it
/// has a name, and an integer offset where it gives a non-empty one.
pub open spec fn reference_ok(el: Element) -> bool {
    &&& attr_of(&el, "name"@) is Some
    &&& (nonempty_attr_of(&el, "offset"@) matches Some(t) ==> is_int_text(t))
}

/// Whether `r` is the reference that the item element `el` declares.
pub open spec fn reference_matches(el: Element, r: RegisterGroupReference) -> bool {
    &&& Some(r.name@) == attr_of(&el, "name"@)
    &&& opt_view(r.name_in_module) == nonempty_attr_of(&el, "name-in-module"@)
    &&& r.offset == match nonempty_attr_of(&el, "offset"@) {
        Some(t) => Some(int_value(t) as usize),
        None => None,
    }
}

/// Reads the references that a register-group element makes to other
/// groups: its `register-group` children, in order.
pub fn parse_references(register_group_el: &Element) -> (r: Result<Vec<RegisterGroupReference>, Error>)
    ensures
        r is Ok <==> forall|i: int|
            0 <= i < named_among(register_group_el.children@, "register-group"@).len()
                ==> reference_ok(#[trigger] named_among(register_group_el.children@, "register-group"@)[i]),
        r matches Ok(v) ==> v@.len() == named_among(register_group_el.children@, "register-group"@).len()
            && forall|i: int|
            0 <= i < v@.len() ==> reference_matches(
                named_among(register_group_el.children@, "register-group"@)[i],
                #[trigger] v@[i],
            ),
{
    let items = register_group_el.children_named("register-group");
    let ghost es = named_among(register_group_el.children@, "register-group"@);
    assert(items@.len() == es.len());
    let mut refs: Vec<RegisterGroupReference> = Vec::new();
    let mut i: usize = 0;
    while i < items.len()
        invariant
            i <= items@.len(),
            es == named_among(register_group_el.children@, "register-group"@),
            items@.len() == es.len(),
            forall|j: int| 0 <= j < es.len() ==> *items@[j] == #[trigger] es[j],
            forall|j: int| 0 <= j < i ==> reference_ok(#[trigger] es[j]),
            refs@.len() == i,
            forall|j: int| 0 <= j < i ==> reference_matches(es[j], #[trigger] refs@[j]),
        decreases items@.len() - i,
    {
        let item = items[i];
        assert(*item == es[i as int]);
        let name = item.attr("name")?.clone();
        let name_in_module = item.nonempty_attr("name-in-module");
        let offset = match item.nonempty_attr("offset") {
            Some(t) => Some(parse_int(t.as_str())?),
            None => None,
        };
        refs.push(RegisterGroupReference { name, name_in_module, offset });
        i = i + 1;
    }
    Ok(refs)
}

/// Whether a register-group template element can be read at `address`.
pub open spec fn template_ok(
    el: Element,
    address: usize,
    groups: Seq<(Seq<char>, Seq<(Seq<char>, crate::chip::EnumeratedValue)>)>,
) -> bool {
    &&& attr_of(&el, "name"@) is Some
    &&& forall|i: int|
        0 <= i < named_among(el.children@, "register-group"@).len() ==> reference_ok(
            #[trigger] named_among(el.children@, "register-group"@)[i],
        )
    &&& registers_ok(el, address, groups)
}

/// Whether `g` is the template that the register-group element `c`
/// declares, with its registers at `address`.
pub open spec fn template_matches(
    c: Element,
    address: usize,
    groups: Seq<(Seq<char>, Seq<(Seq<char>, crate::chip::EnumeratedValue)>)>,
    g: RegisterGroupModel,
) -> bool {
    let items = named_among(c.children@, "register-group"@);
    &&& Some(g.name@) == attr_of(&c, "name"@)
    &&& opt_view(g.description) == nonempty_attr_of(&c, "caption"@)
    &&& g.offset == 0
    &&& g.subgroups.len() == 0
    &&& g.is_union == (attr_of(&c, "class"@) == Some("union"@))
    &&& g.references.len() == items.len()
    &&& forall|j: int| 0 <= j < items.len() ==> reference_matches(items[j], #[trigger] g.references[j])
    &&& register_table(c, address, groups, g.registers)
}

/// Whether `i` is the last of the first `n` template elements `es` named
/// `k`.
pub open spec fn last_template(es: Seq<Element>, n: int, k: Seq<char>, i: int) -> bool {
    &&& 0 <= i < n
    &&& attr_of(&es[i], "name"@) == Some(k)
    &&& forall|j: int| i < j < n ==> attr_of(&#[trigger] es[j], "name"@) != Some(k)
}

/// Whether `m` is the template table of the first `n` template elements
/// `es`: one entry per name, holding the template of the last element of
/// that name.
pub open spec fn template_table_upto(
    es: Seq<Element>,
    n: int,
    address: usize,
    groups: Seq<(Seq<char>, Seq<(Seq<char>, crate::chip::EnumeratedValue)>)>,
    m: Seq<(Seq<char>, RegisterGroupModel)>,
) -> bool {
    &&& forall|k: Seq<char>|
        #![trigger has_key(m, k)]
        has_key(m, k) <==> exists|i: int| 0 <= i < n && attr_of(&es[i], "name"@) == Some(k)
    &&& forall|k: Seq<char>|
        #![trigger has_key(m, k)]
        has_key(m, k) ==> exists|i: int|
            last_template(es, n, k, i) && template_matches(es[i], address, groups, value_at(m, k))
}

/// Whether `m` is the template table that the register-group children of a
/// module give at `address`.
pub open spec fn template_table(
    module: Element,
    address: usize,
    groups: Seq<(Seq<char>, Seq<(Seq<char>, crate::chip::EnumeratedValue)>)>,
    m: Seq<(Seq<char>, RegisterGroupModel)>,
) -> bool {
    let es = named_among(module.children@, "register-group"@);
    &&& unique_keys(m)
    &&& template_table_upto(es, es.len() as int, address, groups, m)
}

/// Whether every entry of a template table is keyed by its group's name, has
/// no subgroups yet, and has its registers at `address` plus their offsets.
pub open spec fn templates_at(m: Seq<(Seq<char>, RegisterGroupModel)>, address: int) -> bool {
    forall|i: int|
        0 <= i < m.len() ==> (#[trigger] m[i]).0 == m[i].1.name@ && m[i].1.subgroups.len() == 0
            && m[i].1.offset == 0 && registers_at(m[i].1.registers, address)
}

/// Reads the register-group templates that a module declares, with their
/// registers placed at the instance's base address `address`; a later
/// template replaces an earlier one of the same name.
pub fn parse_list(
    module_el: &Element,
    address: usize,
    value_groups: &ValueGroups,
    warnings: &mut Vec<Warning>,
) -> (r: Result<NameMap<RegisterGroup>, Error>)
    ensures
        r is Ok <==> forall|i: int|
            0 <= i < named_among(module_el.children@, "register-group"@).len() ==> template_ok(
                #[trigger] named_among(module_el.children@, "register-group"@)[i],
                address,
                value_groups@,
            ),
        r matches Ok(m) ==> templates_at(m@, address as int),
        r matches Ok(m) ==> template_table(*module_el, address, value_groups@, m@),
        old(warnings)@.is_prefix_of(final(warnings)@),
{
    let els = module_el.children_named("register-group");
    let ghost es = named_among(module_el.children@, "register-group"@);
    let ghost w0 = warnings@;
    assert(els@.len() == es.len());
    let mut m: NameMap<RegisterGroup> = NameMap::new();
    let mut i: usize = 0;
    while i < els.len()
        invariant
            i <= els@.len(),
            es == named_among(module_el.children@, "register-group"@),
            els@.len() == es.len(),
            forall|j: int| 0 <= j < es.len() ==> *els@[j] == #[trigger] es[j],
            forall|j: int| 0 <= j < i ==> template_ok(#[trigger] es[j], address, value_groups@),
            template_table_upto(es, i as int, address, value_groups@, m@),
            templates_at(m@, address as int),
            w0.is_prefix_of(warnings@),
            w0 == old(warnings)@,
        decreases els@.len() - i,
    {
        let el = els[i];
        assert(*el == es[i as int]);
        let name = match el.attr("name") {
            Ok(n) => n.clone(),
            Err(e) => {
                assert(!template_ok(es[i as int], address, value_groups@));
                return Err(e);
            },
        };
        let description = el.nonempty_attr("caption");
        let is_union = match el.attr_opt("class") {
            Some(c) => text::equal(c.as_str(), "union"),
            None => false,
        };
        assert(is_union == (attr_of(el, "class"@) == Some("union"@)));
        let references = match parse_references(el) {
            Ok(r) => r,
            Err(e) => {
                assert(!template_ok(es[i as int], address, value_groups@));
                return Err(e);
            },
        };
        let ghost w1 = warnings@;
        let res = register::parse_list(el, address, value_groups, warnings);
        proof {
            lemma_prefix_trans(w0, w1, warnings@);
        }
        let registers = match res {
            Ok(r) => r,
            Err(e) => {
                assert(!template_ok(es[i as int], address, value_groups@));
                return Err(e);
            },
        };
        let group = RegisterGroup {
            name: name.clone(),
            description,
            offset: 0,
            is_union,
            references,
            subgroups: Vec::new(),
            registers,
        };
        let ghost before = m@;
        let ghost gv = group@;
        assert(gv.subgroups.len() == 0);
        assert(template_matches(es[i as int], address, value_groups@, gv));
        m.insert(name, group);
        proof {
            let k0 = gv.name@;
            assert(attr_of(&es[i as int], "name"@) == Some(k0));
            assert forall|k: Seq<char>| #![trigger has_key(m@, k)]
                has_key(m@, k) <==> exists|j: int| 0 <= j < i + 1 && attr_of(&es[j], "name"@) == Some(k) by {
                if k != k0 && (exists|j: int| 0 <= j < i + 1 && attr_of(&es[j], "name"@) == Some(k)) {
                    let j = choose|j: int| 0 <= j < i + 1 && attr_of(&es[j], "name"@) == Some(k);
                    assert(j < i);
                    assert(has_key(before, k));
                }
            }
            assert forall|k: Seq<char>| #![trigger has_key(m@, k)]
                has_key(m@, k) implies exists|j: int|
                    last_template(es, i + 1, k, j) && template_matches(es[j], address, value_groups@, value_at(m@, k)) by {
                if k == k0 {
                    assert(last_template(es, i + 1, k, i as int));
                } else {
                    assert(has_key(before, k));
                    let j = choose|j: int|
                        last_template(es, i as int, k, j) && template_matches(es[j], address, value_groups@, value_at(before, k));
                    assert(last_template(es, i + 1, k, j));
                }
            }
            assert forall|t: int| 0 <= t < m@.len() implies (#[trigger] m@[t]).0 == m@[t].1.name@
                && m@[t].1.subgroups.len() == 0 && m@[t].1.offset == 0 && registers_at(
                m@[t].1.registers,
                address as int,
            ) by {
                let k = gv.name@;
                if has_key(before, k) {
                    let p = choose|p: int|
                        0 <= p < before.len() && before[p].0 == k && m@ == before.update(p, (k, gv));
                    if t != p {
                        assert(m@[t] == before[t]);
                    }
                } else {
                    let p = choose|p: int| 0 <= p <= before.len() && m@ == before.insert(p, (k, gv));
                    if t < p {
                        assert(m@[t] == before[t]);
                    } else if t > p {
                        assert(m@[t] == before[t - 1]);
                    }
                }
            }
        }
        i = i + 1;
    }
    proof {
        use_type_invariant(&m);
    }
    Ok(m)
}

/// The offset that a reference gives its group: zero where it gives none.
pub open spec fn ref_offset(r: RegisterGroupReference) -> int {
    match r.offset {
        Some(o) => o as int,
        None => 0,
    }
}

/// The template that a reference names, where it names one that exists.
pub open spec fn template_for(
    templates: Seq<(Seq<char>, RegisterGroupModel)>,
    r: RegisterGroupReference,
) -> Option<RegisterGroupModel> {
    match r.name_in_module {
        Some(n) => if has_key(templates, n@) {
            Some(value_at(templates, n@))
        } else {
            None
        },
        None => None,
    }
}

/// Whether every register of `regs` can be placed at `base` plus its offset.
pub open spec fn rebase_fits(regs: Seq<(Seq<char>, RegisterModel)>, base: int) -> bool {
    forall|i: int| 0 <= i < regs.len() ==> base + (#[trigger] regs[i]).1.offset <= usize::MAX
}

/// `regs` with each register placed at `base` plus its offset.
pub open spec fn rebased(regs: Seq<(Seq<char>, RegisterModel)>, base: int) -> Seq<
    (Seq<char>, RegisterModel),
> {
    regs.map_values(
        |e: (Seq<char>, RegisterModel)|
            (e.0, RegisterModel { address: (base + e.1.offset) as usize, ..e.1 }),
    )
}

/// The copy of template `t` that reference `r` places at `base`: named after
/// the reference, and with its registers moved to `base` where the reference
/// gives a non-zero offset.
pub open spec fn instantiate(t: RegisterGroupModel, r: RegisterGroupReference, base: int) -> RegisterGroupModel {
    RegisterGroupModel {
        name: r.name,
        offset: ref_offset(r) as usize,
        registers: if ref_offset(r) > 0 {
            rebased(t.registers, base)
        } else {
            t.registers
        },
        ..t
    }
}

/// Group `g` at address `addr` and nesting level `level`, with its references
/// replaced by the groups they instantiate, appended to its subgroups.
pub open spec fn resolution(
    templates: Seq<(Seq<char>, RegisterGroupModel)>,
    g: RegisterGroupModel,
    addr: int,
    level: int,
) -> Result<RegisterGroupModel, ResolveFailure>
    decreases 21 - level, 1int, 0int,
{
    if level > MAX_NESTING {
        Err(ResolveFailure::Depth)
    } else {
        match instances(templates, g.references, addr, level) {
            Ok(subs) => Ok(
                RegisterGroupModel { references: Seq::empty(), subgroups: g.subgroups + subs, ..g },
            ),
            Err(f) => Err(f),
        }
    }
}

/// The resolved groups that the references `refs` of a group at address
/// `addr` and level `level` instantiate, in order; a reference to no existing
/// template gives none.
pub open spec fn instances(
    templates: Seq<(Seq<char>, RegisterGroupModel)>,
    refs: Seq<RegisterGroupReference>,
    addr: int,
    level: int,
) -> Result<Seq<RegisterGroupModel>, ResolveFailure>
    decreases 21 - level, 0int, refs.len(),
{
    if refs.len() == 0 || level > MAX_NESTING {
        Ok(Seq::empty())
    } else {
        match instances(templates, refs.drop_last(), addr, level) {
            Err(f) => Err(f),
            Ok(prev) => {
                let r = refs.last();
                match template_for(templates, r) {
                    None => Ok(prev),
                    Some(t) => {
                        let base = addr + ref_offset(r);
                        if base > usize::MAX || (ref_offset(r) > 0 && !rebase_fits(
                            t.registers,
                            base,
                        )) {
                            Err(ResolveFailure::Overflow)
                        } else {
                            match resolution(templates, instantiate(t, r, base), base, level + 1) {
                                Ok(c) => Ok(prev.push(c)),
                                Err(f) => Err(f),
                            }
                        }
                    },
                }
            },
        }
    }
}

/// Places every register of `regs` at `base` plus its offset, where all fit.
fn rebase(regs: NameMap<Register>, base: usize) -> (r: Option<NameMap<Register>>)
    ensures
        r is Some <==> rebase_fits(regs@, base as int),
        r matches Some(m) ==> m@ == rebased(regs@, base as int),
{
    let ghost before = regs@;
    let entries = regs.into_entries();
    let mut out: NameMap<Register> = NameMap::new();
    let ghost mut i: int = 0;
    let mut rest = entries;
    while rest.len() > 0
        invariant
            before == regs@,
            0 <= i,
            before.len() == i + rest@.len(),
            crate::name_map::unique_keys(before),
            crate::name_map::ascending_keys(before),
            forall|j: int|
                0 <= j < rest@.len() ==> ((#[trigger] rest@[j]).0@, rest@[j].1@) == before[j + i],
            forall|j: int| 0 <= j < i ==> base + (#[trigger] before[j]).1.offset <= usize::MAX,
            out@ == rebased(before.subrange(0, i as int), base as int),
        decreases rest@.len(),
    {
        let (k, mut reg) = rest.remove(0);
        assert((k@, reg@) == before[i as int]);
        let address = match base.checked_add(reg.offset) {
            Some(a) => a,
            None => {
                assert(!(base + before[i as int].1.offset <= usize::MAX));
                assert(!rebase_fits(regs@, base as int));
                return None;
            },
        };
        reg.address = address;
        proof {
            if has_key(out@, k@) {
                let t = choose|t: int| 0 <= t < out@.len() && #[trigger] out@[t].0 == k@;
                assert(out@[t] == rebased(before.subrange(0, i as int), base as int)[t]);
                assert(before.subrange(0, i as int)[t] == before[t]);
                assert(out@[t].0 == before[t].0);
                assert(before[t].0 != before[i as int].0);
            }
        }
        let ghost prev = out@;
        proof {
            assert forall|t: int| 0 <= t < out@.len() implies (#[trigger] out@[t]).0 == before[t].0 by {
                assert(out@[t] == rebased(before.subrange(0, i as int), base as int)[t]);
                assert(before.subrange(0, i as int)[t] == before[t]);
            }
            crate::name_map::lemma_prefix_precedes(before, out@, i);
        }
        out.push_new(k, reg);
        proof {
            assert(out@ =~= rebased(before.subrange(0, i + 1), base as int)) by {
                assert(prev =~= rebased(before.subrange(0, i as int), base as int));
            }
        }
        proof {
            i = i + 1;
        }
    }
    assert(before.subrange(0, i as int) =~= before);
    Some(out)
}

/// Instantiates the references of `register_group`, a group at
/// `current_address` and nesting level `level`, from the templates
/// `register_groups`, and appends the results to its subgroups, recursively.
/// Fails where references nest beyond [`MAX_NESTING`] levels, which bounds a
/// template that refers to itself.
pub fn build_register_group_hierarchy(
    register_group: &mut RegisterGroup,
    register_groups: &mut NameMap<RegisterGroup>,
    current_address: usize,
    level: usize,
) -> (r: Result<(), Error>)
    ensures
        final(register_groups)@ == old(register_groups)@,
        final(register_group)@.name == old(register_group)@.name,
        final(register_group)@.description == old(register_group)@.description,
        final(register_group)@.offset == old(register_group)@.offset,
        final(register_group)@.is_union == old(register_group)@.is_union,
        final(register_group)@.registers == old(register_group)@.registers,
        r is Ok <==> resolution(
            old(register_groups)@,
            old(register_group)@,
            current_address as int,
            level as int,
        ) is Ok,
        r is Ok ==> resolution(
            old(register_groups)@,
            old(register_group)@,
            current_address as int,
            level as int,
        ) == Ok::<RegisterGroupModel, ResolveFailure>(final(register_group)@),
        r matches Err(e) ==> (e is RecursiveRegisterGroup <==> resolution(
            old(register_groups)@,
            old(register_group)@,
            current_address as int,
            level as int,
        ) == Err::<RegisterGroupModel, ResolveFailure>(ResolveFailure::Depth)),
    decreases 21 - level,
{
    let ghost templates = register_groups@;
    let ghost g0 = register_group@;
    if level > MAX_NESTING {
        return Err(
            Error::RecursiveRegisterGroup(
                RecursiveRegisterGroupError::new(register_group.name.clone()),
            ),
        );
    }
    let mut refs: Vec<RegisterGroupReference> = Vec::new();
    std::mem::swap(&mut refs, &mut register_group.references);
    let ghost n0 = g0.subgroups.len();
    proof {
        assert(register_group@.subgroups =~= g0.subgroups);
        assert(refs@ =~= g0.references);
        assert(refs@.subrange(0, 0) =~= Seq::<RegisterGroupReference>::empty());
        assert(register_group@.subgroups.subrange(n0 as int, n0 as int) =~= Seq::<RegisterGroupModel>::empty());
    }
    let mut i: usize = 0;
    while i < refs.len()
        invariant
            level <= MAX_NESTING,
            i <= refs@.len(),
            refs@ == g0.references,
            templates == register_groups@,
            register_groups@ == old(register_groups)@,
            g0 == old(register_group)@,
            n0 == g0.subgroups.len(),
            register_group@.name == g0.name,
            register_group@.description == g0.description,
            register_group@.offset == g0.offset,
            register_group@.is_union == g0.is_union,
            register_group@.registers == g0.registers,
            register_group@.references == Seq::<RegisterGroupReference>::empty(),
            n0 <= register_group@.subgroups.len(),
            register_group@.subgroups.subrange(0, n0 as int) == g0.subgroups,
            instances(templates, refs@.subrange(0, i as int), current_address as int, level as int)
                == Ok::<Seq<RegisterGroupModel>, ResolveFailure>(
                register_group@.subgroups.subrange(n0 as int, register_group@.subgroups.len() as int),
            ),
        decreases refs@.len() - i,
    {
        let reference = &refs[i];
        let ghost pre = refs@.subrange(0, i as int);
        let ghost post = refs@.subrange(0, i + 1);
        let ghost subs = register_group@.subgroups;
        proof {
            assert(post.drop_last() =~= pre);
            assert(post.last() == *reference);
        }
        let template = match &reference.name_in_module {
            Some(n) => register_groups.get(n.as_str()),
            None => None,
        };
        match template {
            None => {
                assert(template_for(templates, *reference) is None);
            },
            Some(t) => {
                let offset = match reference.offset {
                    Some(o) => o,
                    None => 0,
                };
                let new_address = match current_address.checked_add(offset) {
                    Some(a) => a,
                    None => {
                        proof {
                            assert(instances(templates, post, current_address as int, level as int)
                                == Err::<Seq<RegisterGroupModel>, ResolveFailure>(ResolveFailure::Overflow));
                            lemma_instances_failure_stays(templates, refs@, i as int + 1, current_address as int, level as int);
                            assert(refs@.subrange(0, refs@.len() as int) =~= refs@);
                        }
                        return Err(Error::AddressOverflow(reference.name.clone()));
                    },
                };
                let mut sub = t.duplicate();
                if offset > 0 {
                    let mut regs: NameMap<Register> = NameMap::new();
                    std::mem::swap(&mut regs, &mut sub.registers);
                    match rebase(regs, new_address) {
                        Some(m) => {
                            sub.registers = m;
                        },
                        None => {
                            proof {
                                assert(instances(templates, post, current_address as int, level as int)
                                    == Err::<Seq<RegisterGroupModel>, ResolveFailure>(ResolveFailure::Overflow));
                                lemma_instances_failure_stays(templates, refs@, i as int + 1, current_address as int, level as int);
                                assert(refs@.subrange(0, refs@.len() as int) =~= refs@);
                            }
                            return Err(Error::AddressOverflow(reference.name.clone()));
                        },
                    }
                }
                sub.name = reference.name.clone();
                sub.offset = offset;
                proof {
                    assert(sub@.subgroups =~= t@.subgroups);
                    assert(sub@ == instantiate(t@, *reference, new_address as int));
                }
                let ghost sub0 = sub@;
                let res = build_register_group_hierarchy(&mut sub, register_groups, new_address, level + 1);
                match res {
                    Ok(()) => {},
                    Err(e) => {
                        proof {
                            lemma_instances_failure_stays(templates, refs@, i as int + 1, current_address as int, level as int);
                            assert(refs@.subrange(0, refs@.len() as int) =~= refs@);
                        }
                        return Err(e);
                    },
                }
                register_group.subgroups.push(sub);
                proof {
                    assert(register_group@.subgroups =~= subs.push(sub@));
                    assert(register_group@.subgroups.subrange(n0 as int, register_group@.subgroups.len() as int)
                        =~= subs.subrange(n0 as int, subs.len() as int).push(sub@));
                    assert(register_group@.subgroups.subrange(0, n0 as int) =~= subs.subrange(0, n0 as int));
                }
            },
        }
        i = i + 1;
    }
    proof {
        assert(refs@.subrange(0, i as int) =~= refs@);
        assert(register_group@.subgroups =~= g0.subgroups + register_group@.subgroups.subrange(n0 as int, register_group@.subgroups.len() as int));
    }
    Ok(())
}

/// Once the first `k` references fail to resolve, so do all of them.
proof fn lemma_instances_failure_stays(
    templates: Seq<(Seq<char>, RegisterGroupModel)>,
    refs: Seq<RegisterGroupReference>,
    k: int,
    addr: int,
    level: int,
)
    requires
        0 < k <= refs.len(),
        level <= MAX_NESTING,
        instances(templates, refs.subrange(0, k), addr, level) is Err,
    ensures
        instances(templates, refs, addr, level) == instances(templates, refs.subrange(0, k), addr, level),
    decreases refs.len() - k,
{
    if k == refs.len() {
        assert(refs.subrange(0, k) =~= refs);
    } else {
        assert(refs.subrange(0, k + 1).drop_last() =~= refs.subrange(0, k));
        lemma_instances_failure_stays(templates, refs, k + 1, addr, level);
    }
}

/// A group without references, at a level within [`MAX_NESTING`], resolves
/// to itself: it gains no subgroups and every register keeps its address, so a
/// freshly read template keeps each register at its base address plus its own
/// offset.
pub proof fn lemma_resolve_without_references(
    templates: Seq<(Seq<char>, RegisterGroupModel)>,
    g: RegisterGroupModel,
    base: int,
    level: int,
)
    requires
        g.references.len() == 0,
        0 <= level <= MAX_NESTING,
    ensures
        resolution(templates, g, base, level) == Ok::<RegisterGroupModel, ResolveFailure>(
            RegisterGroupModel { references: Seq::empty(), ..g },
        ),
        g.subgroups.len() == 0 ==> resolution(templates, g, base, level)->Ok_0.subgroups.len()
            == 0,
        (forall|i: int|
            0 <= i < g.registers.len() ==> (#[trigger] g.registers[i]).1.address == base
                + g.registers[i].1.offset) ==> forall|i: int|
            0 <= i < resolution(templates, g, base, level)->Ok_0.registers.len() ==> (
            #[trigger] resolution(templates, g, base, level)->Ok_0.registers[i]).1.address == base
                + resolution(templates, g, base, level)->Ok_0.registers[i].1.offset,
{
    assert(g.subgroups + Seq::<RegisterGroupModel>::empty() =~= g.subgroups);
    assert(g.references =~= Seq::<RegisterGroupReference>::empty());
}

/// Whether `refs` is a single reference, without offset, to the template `n`.
pub open spec fn refers_to(refs: Seq<RegisterGroupReference>, n: Seq<char>) -> bool {
    &&& refs.len() == 1
    &&& refs[0].offset is None
    &&& refs[0].name_in_module matches Some(s) && s@ == n
}

/// Whether the templates `names` form a chain: each is present and refers to
/// the next, and the last refers to none.
pub open spec fn is_chain(templates: Seq<(Seq<char>, RegisterGroupModel)>, names: Seq<Seq<char>>) -> bool {
    &&& forall|j: int| 0 <= j < names.len() ==> has_key(templates, #[trigger] names[j])
    &&& forall|j: int|
        0 <= j < names.len() - 1 ==> refers_to(
            value_at(templates, #[trigger] names[j]).references,
            names[j + 1],
        )
    &&& names.len() > 0 ==> value_at(templates, names.last()).references.len() == 0
}

/// A group at `level` that refers to a chain of templates `names` resolves
/// exactly when the chain's last template lands within [`MAX_NESTING`]
/// levels; otherwise it fails with [`ResolveFailure::Depth`].
pub proof fn lemma_chain_depth(
    templates: Seq<(Seq<char>, RegisterGroupModel)>,
    g: RegisterGroupModel,
    names: Seq<Seq<char>>,
    addr: int,
    level: int,
)
    requires
        is_chain(templates, names),
        names.len() > 0,
        refers_to(g.references, names[0]),
        0 <= level,
        0 <= addr <= usize::MAX,
    ensures
        resolution(templates, g, addr, level) is Ok <==> level + names.len() <= MAX_NESTING,
        resolution(templates, g, addr, level) is Err ==> resolution(templates, g, addr, level)
            == Err::<RegisterGroupModel, ResolveFailure>(ResolveFailure::Depth),
    decreases names.len(),
{
    if level <= MAX_NESTING {
        let r = g.references[0];
        let t = value_at(templates, names[0]);
        assert(has_key(templates, names[0]));
        assert(template_for(templates, r) == Some(t));
        let child = instantiate(t, r, addr);
        assert(g.references.drop_last() =~= Seq::<RegisterGroupReference>::empty());
        assert(instances(templates, g.references.drop_last(), addr, level) == Ok::<Seq<RegisterGroupModel>, ResolveFailure>(Seq::empty()));
        assert(g.references.last() == r);
        assert(ref_offset(r) == 0);
        if names.len() == 1 {
            if level + 1 <= MAX_NESTING {
                lemma_resolve_without_references(templates, child, addr, level + 1);
            }
        } else {
            let rest = names.skip(1);
            assert(refers_to(value_at(templates, names[0]).references, names[1]));
            assert(is_chain(templates, rest)) by {
                assert forall|j: int| 0 <= j < rest.len() - 1 implies refers_to(
                    value_at(templates, #[trigger] rest[j]).references,
                    rest[j + 1],
                ) by {
                    assert(rest[j] == names[j + 1]);
                    assert(rest[j + 1] == names[j + 2]);
                }
                assert(rest.last() == names.last());
            }
            lemma_chain_depth(templates, child, rest, addr, level + 1);
        }
    }
}

/// Whether `refs` is a single reference, at offset `off`, to the template
/// `n`.
pub open spec fn refers_to_at(refs: Seq<RegisterGroupReference>, n: Seq<char>, off: int) -> bool {
    &&& refs.len() == 1
    &&& ref_offset(refs[0]) == off
    &&& refs[0].name_in_module matches Some(s) && s@ == n
}

/// A template that refers to itself at an offset never resolves: where the
/// addresses of 21 nested copies still fit, it fails with
/// [`ResolveFailure::Depth`] once the nesting passes [`MAX_NESTING`].
pub proof fn lemma_self_reference_at_offset_fails(
    templates: Seq<(Seq<char>, RegisterGroupModel)>,
    g: RegisterGroupModel,
    n: Seq<char>,
    off: int,
    top: int,
    addr: int,
    level: int,
)
    requires
        has_key(templates, n),
        refers_to_at(value_at(templates, n).references, n, off),
        refers_to_at(g.references, n, off),
        forall|i: int| 0 <= i < value_at(templates, n).registers.len() ==> (#[trigger] value_at(templates, n).registers[i]).1.offset <= top,
        0 <= level <= 21,
        0 <= addr,
        0 <= off,
        0 <= top,
        addr + (21 - level) * off + top <= usize::MAX,
    ensures
        resolution(templates, g, addr, level) == Err::<RegisterGroupModel, ResolveFailure>(
            ResolveFailure::Depth,
        ),
    decreases 21 - level,
{
    if level <= MAX_NESTING {
        let r = g.references[0];
        let t = value_at(templates, n);
        assert(template_for(templates, r) == Some(t));
        assert(g.references.drop_last() =~= Seq::<RegisterGroupReference>::empty());
        assert(instances(templates, g.references.drop_last(), addr, level) == Ok::<Seq<RegisterGroupModel>, ResolveFailure>(Seq::empty()));
        assert(g.references.last() == r);
        let base = addr + off;
        assert((21 - level) * off == off + (20 - level) * off) by (nonlinear_arith);
        assert((20 - level) * off >= 0) by (nonlinear_arith)
            requires
                level <= 20,
                off >= 0,
        ;
        assert(base <= usize::MAX);
        assert(rebase_fits(t.registers, base));
        let child = instantiate(t, r, base);
        assert(child.references == t.references);
        lemma_self_reference_at_offset_fails(templates, child, n, off, top, base, level + 1);
    }
}

/// Whether `refs` is a single reference, at an offset of at most `off`, to
/// the template `n`.
pub open spec fn refers_within(refs: Seq<RegisterGroupReference>, n: Seq<char>, off: int) -> bool {
    &&& refs.len() == 1
    &&& ref_offset(refs[0]) <= off
    &&& refs[0].name_in_module matches Some(s) && s@ == n
}

/// Whether the templates `names` form a chain whose references have offsets
/// of at most `off` and whose registers have offsets of at most `top`: each
/// template is present and refers to the next, and the last refers to none.
pub open spec fn is_chain_within(
    templates: Seq<(Seq<char>, RegisterGroupModel)>,
    names: Seq<Seq<char>>,
    off: int,
    top: int,
) -> bool {
    &&& forall|j: int| 0 <= j < names.len() ==> has_key(templates, #[trigger] names[j])
    &&& forall|j: int|
        0 <= j < names.len() - 1 ==> refers_within(
            value_at(templates, #[trigger] names[j]).references,
            names[j + 1],
            off,
        )
    &&& names.len() > 0 ==> value_at(templates, names.last()).references.len() == 0
    &&& forall|j: int, i: int|
        0 <= j < names.len() && 0 <= i < value_at(templates, names[j]).registers.len() ==> (
        #[trigger] value_at(templates, #[trigger] names[j]).registers[i]).1.offset <= top
}

/// A group at `level` that refers, at offsets of at most `off`, to a chain
/// of templates `names` resolves exactly when the chain's last template lands
/// within [`MAX_NESTING`] levels, provided the addresses of 21 nested levels
/// fit; otherwise it fails with [`ResolveFailure::Depth`].
pub proof fn lemma_chain_depth_within(
    templates: Seq<(Seq<char>, RegisterGroupModel)>,
    g: RegisterGroupModel,
    names: Seq<Seq<char>>,
    off: int,
    top: int,
    addr: int,
    level: int,
)
    requires
        is_chain_within(templates, names, off, top),
        names.len() > 0,
        refers_within(g.references, names[0], off),
        0 <= level <= 21,
        0 <= addr,
        0 <= off,
        0 <= top,
        addr + (21 - level) * off + top <= usize::MAX,
    ensures
        resolution(templates, g, addr, level) is Ok <==> level + names.len() <= MAX_NESTING,
        resolution(templates, g, addr, level) is Err ==> resolution(templates, g, addr, level)
            == Err::<RegisterGroupModel, ResolveFailure>(ResolveFailure::Depth),
    decreases names.len(),
{
    if level <= MAX_NESTING {
        let r = g.references[0];
        let t = value_at(templates, names[0]);
        assert(has_key(templates, names[0]));
        assert(template_for(templates, r) == Some(t));
        assert(g.references.drop_last() =~= Seq::<RegisterGroupReference>::empty());
        assert(instances(templates, g.references.drop_last(), addr, level) == Ok::<Seq<RegisterGroupModel>, ResolveFailure>(Seq::empty()));
        assert(g.references.last() == r);
        let o = ref_offset(r);
        let base = addr + o;
        assert((21 - level) * off == off + (20 - level) * off) by (nonlinear_arith);
        assert((20 - level) * off >= 0) by (nonlinear_arith)
            requires
                level <= 20,
                off >= 0,
        ;
        assert(o >= 0);
        assert(base <= usize::MAX);
        assert forall|i: int| 0 <= i < t.registers.len() implies base + (#[trigger] t.registers[i]).1.offset <= usize::MAX by {
            assert(value_at(templates, names[0]).registers[i].1.offset <= top);
        }
        let child = instantiate(t, r, base);
        if names.len() == 1 {
            if level + 1 <= MAX_NESTING {
                lemma_resolve_without_references(templates, child, base, level + 1);
            }
        } else {
            let rest = names.skip(1);
            assert(refers_within(value_at(templates, names[0]).references, names[1], off));
            assert(is_chain_within(templates, rest, off, top)) by {
                assert forall|j: int| 0 <= j < rest.len() implies has_key(templates, #[trigger] rest[j]) by {
                    assert(rest[j] == names[j + 1]);
                }
                assert forall|j: int| 0 <= j < rest.len() - 1 implies refers_within(
                    value_at(templates, #[trigger] rest[j]).references,
                    rest[j + 1],
                    off,
                ) by {
                    assert(rest[j] == names[j + 1]);
                    assert(rest[j + 1] == names[j + 2]);
                }
                assert(rest.last() == names.last());
                assert forall|j: int, i: int|
                    0 <= j < rest.len() && 0 <= i < value_at(templates, rest[j]).registers.len() implies (
                    #[trigger] value_at(templates, #[trigger] rest[j]).registers[i]).1.offset <= top by {
                    assert(rest[j] == names[j + 1]);
                }
            }
            assert(base + (21 - (level + 1)) * off + top <= usize::MAX);
            lemma_chain_depth_within(templates, child, rest, off, top, base, level + 1);
        }
    }
}

/// A template that refers to itself, without offset, never resolves: it fails
/// with [`ResolveFailure::Depth`] once the nesting passes [`MAX_NESTING`].
pub proof fn lemma_self_reference_fails(
    templates: Seq<(Seq<char>, RegisterGroupModel)>,
    g: RegisterGroupModel,
    n: Seq<char>,
    addr: int,
    level: int,
)
    requires
        has_key(templates, n),
        refers_to(value_at(templates, n).references, n),
        refers_to(g.references, n),
        0 <= level,
        0 <= addr <= usize::MAX,
    ensures
        resolution(templates, g, addr, level) == Err::<RegisterGroupModel, ResolveFailure>(
            ResolveFailure::Depth,
        ),
    decreases 21 - level,
{
    if level <= MAX_NESTING {
        let r = g.references[0];
        let t = value_at(templates, n);
        assert(template_for(templates, r) == Some(t));
        assert(g.references.drop_last() =~= Seq::<RegisterGroupReference>::empty());
        assert(instances(templates, g.references.drop_last(), addr, level) == Ok::<Seq<RegisterGroupModel>, ResolveFailure>(Seq::empty()));
        assert(g.references.last() == r);
        assert(ref_offset(r) == 0);
        lemma_self_reference_fails(templates, instantiate(t, r, addr), n, addr, level + 1);
    }
}

/// What resolution reads of a reference: its template's name and its offset.
pub open spec fn ref_shape(r: RegisterGroupReference) -> (Option<Seq<char>>, Option<usize>) {
    (opt_view(r.name_in_module), r.offset)
}

/// Whether two lists of references agree in what resolution reads of them.
pub open spec fn refs_same(a: Seq<RegisterGroupReference>, b: Seq<RegisterGroupReference>) -> bool {
    a.len() == b.len() && forall|i: int| 0 <= i < a.len() ==> ref_shape(#[trigger] a[i]) == ref_shape(b[i])
}

/// Whether two template tables agree in what resolution reads of them: the
/// names, the references of each template, and where its registers can be
/// placed.
pub open spec fn tables_same(
    t1: Seq<(Seq<char>, RegisterGroupModel)>,
    t2: Seq<(Seq<char>, RegisterGroupModel)>,
) -> bool {
    forall|k: Seq<char>|
        #![trigger has_key(t1, k)]
        #![trigger has_key(t2, k)]
        has_key(t1, k) == has_key(t2, k) && (has_key(t1, k) ==> refs_same(
            value_at(t1, k).references,
            value_at(t2, k).references,
        ) && forall|base: int|
            #[trigger] rebase_fits(value_at(t1, k).registers, base) == rebase_fits(
                value_at(t2, k).registers,
                base,
            ))
}

proof fn lemma_resolution_same(
    t1: Seq<(Seq<char>, RegisterGroupModel)>,
    t2: Seq<(Seq<char>, RegisterGroupModel)>,
    g1: RegisterGroupModel,
    g2: RegisterGroupModel,
    addr: int,
    level: int,
)
    requires
        tables_same(t1, t2),
        refs_same(g1.references, g2.references),
    ensures
        resolution(t1, g1, addr, level) is Ok == resolution(t2, g2, addr, level) is Ok,
    decreases 21 - level, 1int, 0int,
{
    if level <= MAX_NESTING {
        lemma_instances_same(t1, t2, g1.references, g2.references, addr, level);
    }
}

proof fn lemma_instances_same(
    t1: Seq<(Seq<char>, RegisterGroupModel)>,
    t2: Seq<(Seq<char>, RegisterGroupModel)>,
    r1: Seq<RegisterGroupReference>,
    r2: Seq<RegisterGroupReference>,
    addr: int,
    level: int,
)
    requires
        tables_same(t1, t2),
        refs_same(r1, r2),
    ensures
        instances(t1, r1, addr, level) is Ok == instances(t2, r2, addr, level) is Ok,
    decreases 21 - level, 0int, r1.len(),
{
    if r1.len() > 0 && level <= MAX_NESTING {
        assert(refs_same(r1.drop_last(), r2.drop_last())) by {
            assert forall|i: int| 0 <= i < r1.drop_last().len() implies ref_shape(#[trigger] r1.drop_last()[i]) == ref_shape(r2.drop_last()[i]) by {
                assert(ref_shape(r1[i]) == ref_shape(r2[i]));
            }
        }
        lemma_instances_same(t1, t2, r1.drop_last(), r2.drop_last(), addr, level);
        let a = r1.last();
        let b = r2.last();
        assert(ref_shape(r1[r1.len() - 1]) == ref_shape(r2[r2.len() - 1]));
        assert(ref_offset(a) == ref_offset(b));
        match a.name_in_module {
            Some(n) => {
                assert(b.name_in_module is Some);
                let nb = b.name_in_module->0;
                assert(n@ == nb@);
                if has_key(t1, n@) {
                    assert(has_key(t2, n@));
                    let base = addr + ref_offset(a);
                    let u1 = value_at(t1, n@);
                    let u2 = value_at(t2, n@);
                    assert(rebase_fits(u1.registers, base) == rebase_fits(u2.registers, base));
                    lemma_resolution_same(t1, t2, instantiate(u1, a, base), instantiate(u2, b, base), base, level + 1);
                } else {
                    assert(!has_key(t2, n@));
                }
            },
            None => {
                assert(b.name_in_module is None);
            },
        }
    }
}

proof fn lemma_rebase_fits_same(
    el: Element,
    address: usize,
    g1: Seq<(Seq<char>, Seq<(Seq<char>, crate::chip::EnumeratedValue)>)>,
    g2: Seq<(Seq<char>, Seq<(Seq<char>, crate::chip::EnumeratedValue)>)>,
    r1: Seq<(Seq<char>, RegisterModel)>,
    r2: Seq<(Seq<char>, RegisterModel)>,
    base: int,
)
    requires
        register_table(el, address, g1, r1),
        register_table(el, address, g2, r2),
        rebase_fits(r1, base),
    ensures
        rebase_fits(r2, base),
{
    assert forall|i: int| 0 <= i < r2.len() implies base + (#[trigger] r2[i]).1.offset <= usize::MAX by {
        let k = r2[i].0;
        crate::name_map::lemma_value_at_index(r2, i);
        lemma_register_tables_offsets(el, address, g2, g1, r2, r1, k);
        let j = choose|j: int| 0 <= j < r1.len() && #[trigger] r1[j].0 == k;
        crate::name_map::lemma_value_at_index(r1, j);
        assert(base + r1[j].1.offset <= usize::MAX);
    }
}

/// Two template tables of one module read at one address agree in what
/// resolution reads of them, whatever enumerations they were read with.
pub proof fn lemma_template_tables_same(
    module: Element,
    address: usize,
    g1: Seq<(Seq<char>, Seq<(Seq<char>, crate::chip::EnumeratedValue)>)>,
    g2: Seq<(Seq<char>, Seq<(Seq<char>, crate::chip::EnumeratedValue)>)>,
    t1: Seq<(Seq<char>, RegisterGroupModel)>,
    t2: Seq<(Seq<char>, RegisterGroupModel)>,
)
    requires
        template_table(module, address, g1, t1),
        template_table(module, address, g2, t2),
    ensures
        tables_same(t1, t2),
{
    let es = named_among(module.children@, "register-group"@);
    let n = es.len() as int;
    assert forall|k: Seq<char>| #![trigger has_key(t1, k)] #![trigger has_key(t2, k)]
        has_key(t1, k) == has_key(t2, k) && (has_key(t1, k) ==> refs_same(
            value_at(t1, k).references,
            value_at(t2, k).references,
        ) && forall|base: int|
            #[trigger] rebase_fits(value_at(t1, k).registers, base) == rebase_fits(
                value_at(t2, k).registers,
                base,
            )) by {
        if has_key(t1, k) {
            assert(has_key(t2, k));
            let i1 = choose|i: int| last_template(es, n, k, i) && template_matches(es[i], address, g1, value_at(t1, k));
            let i2 = choose|i: int| last_template(es, n, k, i) && template_matches(es[i], address, g2, value_at(t2, k));
            if i1 < i2 {
                assert(attr_of(&es[i2], "name"@) != Some(k));
            }
            if i2 < i1 {
                assert(attr_of(&es[i1], "name"@) != Some(k));
            }
            let v1 = value_at(t1, k);
            let v2 = value_at(t2, k);
            let items = named_among(es[i1].children@, "register-group"@);
            assert forall|j: int| 0 <= j < v1.references.len() implies ref_shape(#[trigger] v1.references[j]) == ref_shape(v2.references[j]) by {
                assert(reference_matches(items[j], v1.references[j]));
                assert(reference_matches(items[j], v2.references[j]));
            }
            assert forall|base: int| #[trigger] rebase_fits(v1.registers, base) == rebase_fits(v2.registers, base) by {
                if rebase_fits(v1.registers, base) {
                    lemma_rebase_fits_same(es[i1], address, g1, g2, v1.registers, v2.registers, base);
                }
                if rebase_fits(v2.registers, base) {
                    lemma_rebase_fits_same(es[i1], address, g2, g1, v2.registers, v1.registers, base);
                }
            }
        } else {
            if has_key(t2, k) {
                assert(exists|i: int| 0 <= i < n && attr_of(&es[i], "name"@) == Some(k));
            }
        }
    }
}

/// Whether a template can be read depends on the enumerations only through
/// their names.
pub proof fn lemma_template_ok_names(
    el: Element,
    address: usize,
    g1: Seq<(Seq<char>, Seq<(Seq<char>, crate::chip::EnumeratedValue)>)>,
    g2: Seq<(Seq<char>, Seq<(Seq<char>, crate::chip::EnumeratedValue)>)>,
)
    requires
        same_group_names(g1, g2),
        template_ok(el, address, g1),
    ensures
        template_ok(el, address, g2),
{
    lemma_registers_ok_names(el, address, g1, g2);
}

/// Where the named template resolves in one template table of a module, it
/// resolves in every template table of that module at that address.
pub proof fn lemma_resolves_in_every_table(
    module: Element,
    address: usize,
    g1: Seq<(Seq<char>, Seq<(Seq<char>, crate::chip::EnumeratedValue)>)>,
    g2: Seq<(Seq<char>, Seq<(Seq<char>, crate::chip::EnumeratedValue)>)>,
    t1: Seq<(Seq<char>, RegisterGroupModel)>,
    n: Seq<char>,
)
    requires
        template_table(module, address, g1, t1),
        has_key(t1, n),
        resolution(t1, value_at(t1, n), address as int, 0) is Ok,
    ensures
        forall|t: Seq<(Seq<char>, RegisterGroupModel)>|
            #[trigger] template_table(module, address, g2, t) ==> resolution(t, value_at(t, n), address as int, 0) is Ok,
{
    assert forall|t: Seq<(Seq<char>, RegisterGroupModel)>|
        #[trigger] template_table(module, address, g2, t) implies resolution(t, value_at(t, n), address as int, 0) is Ok by {
        lemma_template_tables_same(module, address, g1, g2, t1, t);
        assert(has_key(t1, n));
        lemma_resolution_same(t1, t, value_at(t1, n), value_at(t, n), address as int, 0);
    }
}

} // verus!
