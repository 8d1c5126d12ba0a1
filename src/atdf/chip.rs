//! The chip as a whole: its device, peripherals and interrupts.
use vstd::prelude::*;
use crate::atdf::interrupt::{self, described_by_first, distinct_indices, first_with_index, merge_interrupts, merged_interrupts, name_and_index};
use crate::atdf::peripheral::{self, normalized};
use crate::chip::{Chip, Interrupt, Peripheral};
use crate::element::{attr_of, first_named, has_child, named, named_among, nonempty_attr_of, opt_view, Element};
use crate::util::{int_value, is_int_text};
use crate::error::{lemma_prefix_trans, Error, UnsupportedError, Warning};
use crate::name_map::{has_key, value_at, NameMap};
use crate::text;

verus! {

/// Whether no two interrupts of a table share a vector, and each is keyed by
/// its name.
pub open spec fn interrupts_wf(m: Seq<(Seq<char>, Interrupt)>) -> bool {
    &&& forall|i: int| 0 <= i < m.len() ==> (#[trigger] m[i]).0 == m[i].1.name@
    &&& forall|i: int, j: int|
        0 <= i < m.len() && 0 <= j < m.len() && i != j ==> (#[trigger] m[i]).1.index != (
        #[trigger] m[j]).1.index
}

/// Whether every peripheral of a table is keyed by its name, has its base
/// address normalized and its references resolved.
pub open spec fn peripherals_wf(m: Seq<(Seq<char>, crate::chip::PeripheralModel)>) -> bool {
    forall|i: int|
        0 <= i < m.len() ==> (#[trigger] m[i]).0 == m[i].1.name@ && normalized(m[i].1) == m[i].1
            && m[i].1.register_group.references.len() == 0
}

/// Whether no two entries of `s` share a name.
pub open spec fn distinct_names(s: Seq<(Seq<char>, usize)>) -> bool {
    forall|p: int, q: int| 0 <= p < s.len() && 0 <= q < s.len() && p != q ==> #[trigger] s[p].0 != #[trigger] s[q].0
}

/// The interrupts `list`, keyed by name. Two interrupts of one name on
/// different vectors cannot both be listed: that is reported, not resolved
/// by dropping one.
fn interrupt_table(list: Vec<Interrupt>) -> (r: Result<NameMap<Interrupt>, Error>)
    requires
        distinct_indices(name_and_index(list@)),
    ensures
        r is Ok <==> distinct_names(name_and_index(list@)),
        r matches Err(e) ==> e is InterruptNameClash,
        r matches Ok(m) ==> interrupts_wf(m@),
        r matches Ok(m) ==> forall|q: int| 0 <= q < list@.len() ==> has_key(m@, (#[trigger] list@[q]).name@)
            && value_at(m@, list@[q].name@) == list@[q],
        r matches Ok(m) ==> forall|t: int| 0 <= t < m@.len() ==> list@.contains((#[trigger] m@[t]).1),
{
    let ghost all = list@;
    let mut m: NameMap<Interrupt> = NameMap::new();
    let mut rest = list;
    let ghost mut k: int = 0;
    while rest.len() > 0
        invariant
            0 <= k,
            all.len() == k + rest@.len(),
            distinct_indices(name_and_index(all)),
            forall|j: int| 0 <= j < rest@.len() ==> #[trigger] rest@[j] == all[j + k],
            forall|t: int|
                0 <= t < m@.len() ==> (#[trigger] m@[t]).0 == m@[t].1.name@ && exists|q: int|
                    0 <= q < k && all[q] == m@[t].1,
            crate::name_map::unique_keys(m@),
            forall|q: int| 0 <= q < k ==> has_key(m@, (#[trigger] all[q]).name@),
            forall|q: int| 0 <= q < k ==> value_at(m@, (#[trigger] all[q]).name@) == all[q],
            distinct_names(name_and_index(all).subrange(0, k)),
            all == list@,
            forall|key: Seq<char>| #[trigger] has_key(m@, key) ==> exists|q: int| 0 <= q < k && all[q].name@ == key,
        decreases rest@.len(),
    {
        let irq = rest.remove(0);
        assert(irq == all[k]);
        if m.get(irq.name.as_str()).is_some() {
            proof {
                let q = choose|q: int| 0 <= q < k && all[q].name@ == irq.name@;
                assert(name_and_index(all)[q].0 == name_and_index(all)[k].0);
            }
            return Err(Error::InterruptNameClash(irq.name));
        }
        let key = irq.name.clone();
        let ghost before = m@;
        m.insert(key, irq);
        proof {
            assert forall|q: int| 0 <= q < k + 1 implies value_at(m@, (#[trigger] all[q]).name@) == all[q] by {
                if q < k {
                    if all[q].name@ == irq.name@ {
                        assert(has_key(before, all[q].name@));
                    }
                }
            }
            assert(distinct_names(name_and_index(all).subrange(0, k + 1))) by {
                let s1 = name_and_index(all).subrange(0, k + 1);
                assert forall|p: int, q: int| 0 <= p < s1.len() && 0 <= q < s1.len() && p != q implies #[trigger] s1[p].0 != #[trigger] s1[q].0 by {
                    if p == k && q < k {
                        assert(has_key(before, all[q].name@));
                    } else if q == k && p < k {
                        assert(has_key(before, all[p].name@));
                    } else {
                        assert(name_and_index(all).subrange(0, k)[p] == s1[p]);
                        assert(name_and_index(all).subrange(0, k)[q] == s1[q]);
                    }
                }
            }
            assert forall|key: Seq<char>| #[trigger] has_key(m@, key) implies exists|q: int| 0 <= q < k + 1 && all[q].name@ == key by {
                if key != irq.name@ {
                    assert(has_key(before, key));
                } else {
                    assert(all[k].name@ == key);
                }
            }
            use_type_invariant(&m);
            assert forall|q: int| 0 <= q < k + 1 implies has_key(m@, (#[trigger] all[q]).name@) by {
                if q < k && all[q].name@ != irq.name@ {
                    assert(has_key(before, all[q].name@));
                }
            }
            assert forall|t: int|
                0 <= t < m@.len() implies (#[trigger] m@[t]).0 == m@[t].1.name@ && exists|q: int|
                    0 <= q < k + 1 && all[q] == m@[t].1 by {
                if has_key(before, irq.name@) {
                    let p = choose|p: int|
                        0 <= p < before.len() && before[p].0 == irq.name@ && m@ == before.update(
                            p,
                            (irq.name@, irq),
                        );
                    if t != p {
                        assert(m@[t] == before[t]);
                    } else {
                        assert(all[k] == m@[t].1);
                    }
                } else {
                    let p = choose|p: int|
                        0 <= p <= before.len() && m@ == before.insert(p, (irq.name@, irq));
                    if t < p {
                        assert(m@[t] == before[t]);
                    } else if t > p {
                        assert(m@[t] == before[t - 1]);
                    } else {
                        assert(all[k] == m@[t].1);
                    }
                }
            }
            k = k + 1;
        }
    }
    proof {
        use_type_invariant(&m);
        assert forall|i: int, j: int|
            0 <= i < m@.len() && 0 <= j < m@.len() && i != j implies (#[trigger] m@[i]).1.index != (
            #[trigger] m@[j]).1.index by {
            let qi = choose|q: int| 0 <= q < k && all[q] == m@[i].1;
            let qj = choose|q: int| 0 <= q < k && all[q] == m@[j].1;
            assert(m@[i].0 != m@[j].0);
            assert(qi != qj);
            assert(name_and_index(all)[qi].1 != name_and_index(all)[qj].1);
        }
    }
    assert forall|t: int| 0 <= t < m@.len() implies all.contains((#[trigger] m@[t]).1) by {
        let q = choose|q: int| 0 <= q < k && all[q] == m@[t].1;
    }
    assert(name_and_index(all).subrange(0, k) =~= name_and_index(all));
    Ok(m)
}

/// The peripherals `list`, keyed by name; a later one replaces an earlier
/// one of the same name.
/// The contents of a list of peripherals.
pub open spec fn peripheral_models(v: Seq<Peripheral>) -> Seq<crate::chip::PeripheralModel> {
    v.map_values(|p: Peripheral| p@)
}

/// Whether `m` is read from one of the instances that the `peripherals`
/// element `ps` lists.
pub open spec fn read_from_instance(ps: Element, modules: Element, m: crate::chip::PeripheralModel) -> bool {
    let insts = peripheral::instance_elements(ps);
    exists|j: int| 0 <= j < insts.len() && peripheral::instance_read(ps, modules, insts[j], m)
}

fn peripheral_table(list: Vec<Peripheral>) -> (r: NameMap<Peripheral>)
    requires
        forall|i: int|
            0 <= i < list@.len() ==> normalized((#[trigger] list@[i])@) == list@[i]@
                && list@[i]@.register_group.references.len() == 0,
    ensures
        peripherals_wf(r@),
        forall|q: int| 0 <= q < list@.len() ==> has_key(r@, (#[trigger] list@[q])@.name@),
        forall|t: int| 0 <= t < r@.len() ==> peripheral_models(list@).contains((#[trigger] r@[t]).1),
{
    let ghost all = list@;
    let mut m: NameMap<Peripheral> = NameMap::new();
    let mut rest = list;
    let ghost mut k: int = 0;
    while rest.len() > 0
        invariant
            0 <= k,
            all.len() == k + rest@.len(),
            forall|i: int|
                0 <= i < all.len() ==> normalized((#[trigger] all[i])@) == all[i]@
                    && all[i]@.register_group.references.len() == 0,
            forall|j: int| 0 <= j < rest@.len() ==> #[trigger] rest@[j] == all[j + k],
            peripherals_wf(m@),
            forall|q: int| 0 <= q < k ==> has_key(m@, (#[trigger] all[q])@.name@),
            forall|t: int| 0 <= t < m@.len() ==> exists|q: int| 0 <= q < k && all[q]@ == (#[trigger] m@[t]).1,
        decreases rest@.len(),
    {
        let p = rest.remove(0);
        assert(p == all[k]);
        let key = p.name.clone();
        let ghost before = m@;
        let ghost pv = p@;
        m.insert(key, p);
        proof {
            assert forall|t: int| 0 <= t < m@.len() implies (#[trigger] m@[t]).0 == m@[t].1.name@
                && normalized(m@[t].1) == m@[t].1 && m@[t].1.register_group.references.len()
                == 0 by {
                if has_key(before, pv.name@) {
                    let q = choose|q: int|
                        0 <= q < before.len() && before[q].0 == pv.name@ && m@ == before.update(
                            q,
                            (pv.name@, pv),
                        );
                    if t != q {
                        assert(m@[t] == before[t]);
                    }
                } else {
                    let q = choose|q: int|
                        0 <= q <= before.len() && m@ == before.insert(q, (pv.name@, pv));
                    if t < q {
                        assert(m@[t] == before[t]);
                    } else if t > q {
                        assert(m@[t] == before[t - 1]);
                    }
                }
            }
            assert forall|q: int| 0 <= q < k + 1 implies has_key(m@, (#[trigger] all[q])@.name@) by {
                if q < k && all[q]@.name@ != pv.name@ {
                    assert(has_key(before, all[q]@.name@));
                }
            }
            assert forall|t: int| 0 <= t < m@.len() implies exists|q: int| 0 <= q < k + 1 && all[q]@ == (#[trigger] m@[t]).1 by {
                if has_key(before, pv.name@) {
                    let q = choose|q: int|
                        0 <= q < before.len() && before[q].0 == pv.name@ && m@ == before.update(q, (pv.name@, pv));
                    if t != q {
                        assert(m@[t] == before[t]);
                        let w = choose|w: int| 0 <= w < k && all[w]@ == before[t].1;
                    } else {
                        assert(all[k]@ == m@[t].1);
                    }
                } else {
                    let q = choose|q: int| 0 <= q <= before.len() && m@ == before.insert(q, (pv.name@, pv));
                    if t < q {
                        assert(m@[t] == before[t]);
                        let w = choose|w: int| 0 <= w < k && all[w]@ == before[t].1;
                    } else if t > q {
                        assert(m@[t] == before[t - 1]);
                        let w = choose|w: int| 0 <= w < k && all[w]@ == before[t - 1].1;
                    } else {
                        assert(all[k]@ == m@[t].1);
                    }
                }
            }
            k = k + 1;
        }
    }
    assert forall|t: int| 0 <= t < m@.len() implies peripheral_models(all).contains((#[trigger] m@[t]).1) by {
        let q = choose|q: int| 0 <= q < k && all[q]@ == m@[t].1;
        assert(peripheral_models(all)[q] == all[q]@);
    }
    m
}

/// The interrupts that a device's `interrupts` element declares, as name and
/// vector.
pub open spec fn declared_interrupts(interrupts: Element) -> Seq<(Seq<char>, usize)> {
    named_among(interrupts.children@, "interrupt"@).map_values(
        |e: Element| (interrupt::interrupt_name(e), int_value(attr_of(&e, "index"@)->0) as usize),
    )
}

/// Whether an interrupt element has a name and an integer index.
pub open spec fn interrupt_ok(e: Element) -> bool {
    attr_of(&e, "name"@) is Some && (attr_of(&e, "index"@) matches Some(t) && is_int_text(t))
}

/// The captions of the interrupts that an `interrupts` element declares,
/// where not empty.
pub open spec fn declared_captions(interrupts: Element) -> Seq<Option<Seq<char>>> {
    named_among(interrupts.children@, "interrupt"@).map_values(|e: Element| nonempty_attr_of(&e, "caption"@))
}

/// Whether `q` is the first of the declarations `decl` with vector `index`.
pub open spec fn first_declared(decl: Seq<(Seq<char>, usize)>, q: int, index: usize) -> bool {
    0 <= q < decl.len() && decl[q].1 == index && forall|p: int| 0 <= p < q ==> decl[p].1 != index
}

/// Whether interrupt `e` has the caption of the first declaration of its
/// vector.
pub open spec fn described_as_first(
    decl: Seq<(Seq<char>, usize)>,
    captions: Seq<Option<Seq<char>>>,
    e: Interrupt,
) -> bool {
    exists|q: int| first_declared(decl, q, e.index) && opt_view(e.description) == captions[q]
}

/// Whether a description tree has the shape that reading a chip needs: one
/// device with a name, architecture and family, its peripherals and
/// interrupts, and the modules; each interrupt with a name and an integer
/// index.
pub open spec fn chip_shape_ok(el: Element) -> bool {
    let devices = first_named(el, "devices"@);
    let device = first_named(devices, "device"@);
    let ies = named_among(first_named(device, "interrupts"@).children@, "interrupt"@);
    &&& has_child(&el, named("devices"@))
    &&& devices.children@.len() == 1
    &&& has_child(&devices, named("device"@))
    &&& has_child(&device, named("peripherals"@))
    &&& has_child(&el, named("modules"@))
    &&& has_child(&device, named("interrupts"@))
    &&& forall|j: int| 0 <= j < ies.len() ==> interrupt_ok(#[trigger] ies[j])
    &&& attr_of(&device, "name"@) is Some
    &&& attr_of(&device, "architecture"@) is Some
    &&& attr_of(&device, "family"@) is Some
}

/// Whether a chip can be read from a description tree: it has the shape
/// that [`chip_shape_ok`] asks for and every module instance can be read.
pub open spec fn chip_ok(el: Element) -> bool {
    let device = first_named(first_named(el, "devices"@), "device"@);
    &&& chip_shape_ok(el)
    &&& peripheral::instances_ok(first_named(device, "peripherals"@), first_named(el, "modules"@))
    &&& distinct_names(merged_interrupts(declared_interrupts(first_named(device, "interrupts"@))))
}

/// Whether `m` is the peripheral table read from a description tree: keyed
/// by name, each entry normalized and read from one of the instances that the
/// device's peripherals list, every such instance present under its name.
pub open spec fn chip_peripherals_read(el: Element, m: Seq<(Seq<char>, crate::chip::PeripheralModel)>) -> bool {
    let device = first_named(first_named(el, "devices"@), "device"@);
    let ps = first_named(device, "peripherals"@);
    let ms = first_named(el, "modules"@);
    let insts = peripheral::instance_elements(ps);
    &&& peripherals_wf(m)
    &&& forall|j: int| 0 <= j < insts.len() ==> has_key(m, attr_of(&#[trigger] insts[j], "name"@)->0)
    &&& forall|t: int| 0 <= t < m.len() ==> read_from_instance(ps, ms, (#[trigger] m[t]).1)
}

/// Reads the chip that a description tree declares: its single device, the
/// peripherals of that device, and its interrupts, those that share a vector
/// merged into one.
pub fn parse(el: &Element, warnings: &mut Vec<Warning>) -> (r: Result<Chip, Error>)
    ensures
        r matches Ok(c) ==> peripherals_wf(c.peripherals@) && interrupts_wf(c.interrupts@),
        r matches Ok(c) ==> {
            let device = first_named(first_named(*el, "devices"@), "device"@);
            &&& Some(c.name@) == attr_of(&device, "name"@)
            &&& Some(c.architecture@) == attr_of(&device, "architecture"@)
            &&& Some(c.family@) == attr_of(&device, "family"@)
            &&& opt_view(c.series) == attr_of(&device, "series"@)
            &&& c.description is None && c.vendor is None && c.version is None
        },
        r is Ok ==> first_named(*el, "devices"@).children@.len() == 1,
        r is Ok <==> chip_ok(*el),
        r matches Ok(c) ==> chip_peripherals_read(*el, c.peripherals@),
        r matches Ok(c) ==> {
            let device = first_named(first_named(*el, "devices"@), "device"@);
            let ints = first_named(device, "interrupts"@);
            forall|t: int|
                0 <= t < c.interrupts@.len() ==> described_as_first(
                    declared_interrupts(ints),
                    declared_captions(ints),
                    #[trigger] c.interrupts@[t].1,
                )
        },
        r matches Ok(c) ==> {
            let device = first_named(first_named(*el, "devices"@), "device"@);
            let merged = merged_interrupts(declared_interrupts(first_named(device, "interrupts"@)));
            &&& forall|q: int| 0 <= q < merged.len() ==> has_key(c.interrupts@, (#[trigger] merged[q]).0)
                && value_at(c.interrupts@, merged[q].0).index == merged[q].1
            &&& forall|t: int|
                0 <= t < c.interrupts@.len() ==> merged.contains(
                    ((#[trigger] c.interrupts@[t]).0, c.interrupts@[t].1.index),
                )
        },
        old(warnings)@.is_prefix_of(final(warnings)@),
{
    let ghost w0 = warnings@;
    let devices = match el.first_child("devices") {
        Ok(d) => d,
        Err(e) => {
            assert(!chip_ok(*el));
            return Err(e);
        },
    };
    if devices.children.len() != 1 {
        let what = text::owned("more than one device definition");
        assert(!chip_ok(*el));
        return Err(Error::Unsupported(UnsupportedError(what, devices.debug())));
    }
    let device = match devices.first_child("device") {
        Ok(d) => d,
        Err(e) => {
            assert(!chip_ok(*el));
            return Err(e);
        },
    };
    let peripherals_el = match device.first_child("peripherals") {
        Ok(d) => d,
        Err(e) => {
            assert(!chip_ok(*el));
            return Err(e);
        },
    };
    let modules_el = match el.first_child("modules") {
        Ok(d) => d,
        Err(e) => {
            assert(!chip_ok(*el));
            return Err(e);
        },
    };
    let list = match peripheral::parse_list(peripherals_el, modules_el, warnings) {
        Ok(l) => l,
        Err(e) => {
            assert(!chip_ok(*el));
            return Err(e);
        },
    };
    let ghost lv = list@;
    let peripherals = peripheral_table(list);
    proof {
        let insts = peripheral::instance_elements(*peripherals_el);
        assert(peripheral::peripheral_names(lv) == peripheral::instance_names(insts));
        assert(peripheral::peripheral_names(lv).len() == lv.len());
        assert(peripheral::instance_names(insts).len() == insts.len());
        assert forall|j: int| 0 <= j < insts.len() implies has_key(peripherals@, attr_of(&#[trigger] insts[j], "name"@)->0) by {
            assert(peripheral::peripheral_names(lv)[j] == peripheral::instance_names(insts)[j]);
            assert(has_key(peripherals@, lv[j]@.name@));
        }
        assert forall|t: int| 0 <= t < peripherals@.len() implies read_from_instance(*peripherals_el, *modules_el, (#[trigger] peripherals@[t]).1) by {
            assert(peripheral_models(lv).contains(peripherals@[t].1));
            let q = choose|q: int| 0 <= q < peripheral_models(lv).len() && peripheral_models(lv)[q] == peripherals@[t].1;
            assert(lv[q]@ == peripherals@[t].1);
            assert(peripheral::instance_read(*peripherals_el, *modules_el, insts[q], lv[q]@));
        }
    }
    let interrupts_el = match device.first_child("interrupts") {
        Ok(d) => d,
        Err(e) => {
            assert(!chip_ok(*el));
            return Err(e);
        },
    };
    let interrupt_els = interrupts_el.children_named("interrupt");
    let ghost decl = declared_interrupts(*interrupts_el);
    let ghost es = named_among(interrupts_el.children@, "interrupt"@);
    assert(interrupt_els@.len() == es.len());
    let mut declared: Vec<Interrupt> = Vec::new();
    let mut i: usize = 0;
    while i < interrupt_els.len()
        invariant
            i <= interrupt_els@.len(),
            interrupt_els@.len() == es.len(),
            es == named_among(interrupts_el.children@, "interrupt"@),
            decl == declared_interrupts(*interrupts_el),
            forall|j: int| 0 <= j < es.len() ==> *interrupt_els@[j] == #[trigger] es[j],
            name_and_index(declared@) == decl.subrange(0, i as int),
            forall|j: int| 0 <= j < i ==> interrupt_ok(#[trigger] es[j]),
            declared@.len() == i,
            forall|j: int| 0 <= j < i ==> opt_view((#[trigger] declared@[j]).description) == nonempty_attr_of(&es[j], "caption"@),
            *interrupts_el == first_named(*device, "interrupts"@),
            *device == first_named(*devices, "device"@),
            *devices == first_named(*el, "devices"@),
            devices.children@.len() == 1,
            has_child(el, named("devices"@)),
            has_child(devices, named("device"@)),
            has_child(device, named("interrupts"@)),
            w0.is_prefix_of(warnings@),
            w0 == old(warnings)@,
        decreases interrupt_els@.len() - i,
    {
        assert(*interrupt_els@[i as int] == es[i as int]);
        let irq = match interrupt::parse(interrupt_els[i]) {
            Ok(x) => x,
            Err(e) => {
                assert(!interrupt_ok(es[i as int]));
                assert(!chip_ok(*el));
                return Err(e);
            },
        };
        assert(decl[i as int] == (irq.name@, irq.index));
        let ghost before = declared@;
        declared.push(irq);
        assert(name_and_index(declared@) =~= name_and_index(before).push((irq.name@, irq.index)));
        assert(decl.subrange(0, i + 1) =~= decl.subrange(0, i as int).push(decl[i as int]));
        assert(name_and_index(declared@) =~= decl.subrange(0, i + 1));
        assert(declared@[i as int] == irq);
        i = i + 1;
    }
    assert(decl.subrange(0, i as int) =~= decl);
    let ghost w1 = warnings@;
    let merged = merge_interrupts(declared, warnings);
    proof {
        lemma_prefix_trans(w0, w1, warnings@);
    }
    let ghost mv = merged@;
    let ghost dv = declared@;
    let interrupts = match interrupt_table(merged) {
        Ok(t) => t,
        Err(e) => {
            assert(name_and_index(mv) == merged_interrupts(decl));
            assert(!chip_ok(*el));
            return Err(e);
        },
    };
    proof {
        let caps = declared_captions(*interrupts_el);
        assert forall|t: int| 0 <= t < interrupts@.len() implies described_as_first(decl, caps, #[trigger] interrupts@[t].1) by {
            let e = interrupts@[t].1;
            assert(mv.contains(e));
            let q = choose|q: int| 0 <= q < mv.len() && mv[q] == e;
            assert(described_by_first(dv, mv[q]));
            let w = choose|w: int| first_with_index(dv, w, e.index) && e.description == dv[w].description;
            assert(name_and_index(dv)[w] == decl[w]);
            assert forall|p: int| 0 <= p < w implies decl[p].1 != e.index by {
                assert(name_and_index(dv)[p] == decl[p]);
            }
            assert(first_declared(decl, w, e.index));
            assert(opt_view(dv[w].description) == nonempty_attr_of(&es[w], "caption"@));
            assert(caps[w] == nonempty_attr_of(&es[w], "caption"@));
            assert(opt_view(e.description) == caps[w]);
        }
        let mi = merged_interrupts(decl);
        assert(name_and_index(mv) == mi);
        assert forall|q: int| 0 <= q < mi.len() implies has_key(interrupts@, (#[trigger] mi[q]).0)
            && value_at(interrupts@, mi[q].0).index == mi[q].1 by {
            assert(mi[q] == (mv[q].name@, mv[q].index));
        }
        assert forall|t: int| 0 <= t < interrupts@.len() implies mi.contains(
            ((#[trigger] interrupts@[t]).0, interrupts@[t].1.index),
        ) by {
            assert(mv.contains(interrupts@[t].1));
            let q = choose|q: int| 0 <= q < mv.len() && mv[q] == interrupts@[t].1;
            assert(mi[q] == (mv[q].name@, mv[q].index));
        }
    }
    let name = match device.attr("name") {
        Ok(n) => n.clone(),
        Err(e) => {
            assert(!chip_ok(*el));
            return Err(e);
        },
    };
    let architecture = match device.attr("architecture") {
        Ok(n) => n.clone(),
        Err(e) => {
            assert(!chip_ok(*el));
            return Err(e);
        },
    };
    let family = match device.attr("family") {
        Ok(n) => n.clone(),
        Err(e) => {
            assert(!chip_ok(*el));
            return Err(e);
        },
    };
    Ok(Chip {
        name,
        architecture,
        family,
        series: match device.attr_opt("series") {
            Some(s) => Some(s.clone()),
            None => None,
        },
        description: None,
        vendor: None,
        version: None,
        peripherals,
        interrupts,
    })
}

} // verus!
