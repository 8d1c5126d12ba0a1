//! Registers: their place, size, access and fields.
use vstd::prelude::*;
use crate::atdf::field::{self, field_access_of, field_matches, field_ok, field_name, str_view};
use crate::atdf::values::ValueGroups;
use crate::chip::{AccessMode, EnumeratedValue, Field, FieldModel, Register, RegisterModel, ValueRestriction};
use crate::element::{attr_of, named_among, nonempty_attr_of, opt_view, quote, Element};
use crate::error::{lemma_prefix_trans, Error, UnsupportedError, Warning};
use crate::name_map::{has_key, unique_keys, value_at, NameMap};
use crate::text;
use crate::util::{int_value, is_int_text, parse_int};

verus! {

/// The access that a register's `rw` attribute gives: none means read-write,
/// empty means no access; `None` for a value that is not understood.
pub open spec fn register_access_of(rw: Option<Seq<char>>) -> Option<AccessMode> {
    match rw {
        None => Some(AccessMode::ReadWrite),
        Some(s) => if s.len() == 0 {
            Some(AccessMode::NoAccess)
        } else if s == "R"@ {
            Some(AccessMode::ReadOnly)
        } else if s == "RW"@ {
            Some(AccessMode::ReadWrite)
        } else if s == "W"@ {
            Some(AccessMode::WriteOnly)
        } else {
            None
        },
    }
}

/// Reads a register's `rw` attribute.
pub fn register_access(rw: Option<&str>) -> (r: Option<AccessMode>)
    ensures
        r == register_access_of(str_view(rw)),
{
    match rw {
        None => Some(AccessMode::ReadWrite),
        Some(s) => if s.unicode_len() == 0 {
            Some(AccessMode::NoAccess)
        } else if text::equal(s, "R") {
            Some(AccessMode::ReadOnly)
        } else if text::equal(s, "RW") {
            Some(AccessMode::ReadWrite)
        } else if text::equal(s, "W") {
            Some(AccessMode::WriteOnly)
        } else {
            None
        },
    }
}

/// Without an access attribute, fields and registers are read-write; an empty
/// one leaves a field read-write but gives a register no access.
pub proof fn lemma_default_access()
    ensures
        field_access_of(None) == Some(AccessMode::ReadWrite),
        register_access_of(None) == Some(AccessMode::ReadWrite),
        field_access_of(Some(Seq::<char>::empty())) == Some(AccessMode::ReadWrite),
        register_access_of(Some(Seq::<char>::empty())) == Some(AccessMode::NoAccess),
{
    reveal_strlit("R");
    reveal_strlit("RW");
    reveal_strlit("W");
}

/// Whether every entry of a field table is keyed by its field's name.
pub open spec fn keyed_by_name(m: Seq<(Seq<char>, FieldModel)>) -> bool {
    forall|i: int| 0 <= i < m.len() ==> (#[trigger] m[i]).0 == m[i].1.name@
}

/// Whether every bitfield child of `el` can be read.
pub open spec fn bitfields_ok(el: Element, groups: Seq<(Seq<char>, Seq<(Seq<char>, EnumeratedValue)>)>) -> bool {
    forall|i: int|
        0 <= i < named_among(el.children@, "bitfield"@).len() ==> field_ok(
            #[trigger] named_among(el.children@, "bitfield"@)[i],
            groups,
        )
}

/// The names of the fields that the bitfield children of `el` declare under
/// the mode `mode`, in order.
pub open spec fn bitfield_names(el: Element, mode: Option<Seq<char>>) -> Seq<Seq<char>> {
    named_among(el.children@, "bitfield"@).map_values(
        |b: Element| field_name(mode, attr_of(&b, "name"@)->0),
    )
}

/// The names of the fields that a `mode` element declares: none where it has
/// no name.
pub open spec fn mode_field_names(m: Element) -> Seq<Seq<char>> {
    match attr_of(&m, "name"@) {
        Some(mn) => bitfield_names(m, Some(mn)),
        None => Seq::empty(),
    }
}

/// The names of the fields of each `mode` child of a register element.
pub open spec fn mode_parts(el: Element) -> Seq<Seq<Seq<char>>> {
    named_among(el.children@, "mode"@).map_values(|m: Element| mode_field_names(m))
}

/// The names of all fields that a register element declares: its own
/// bitfields, then those under each of its named modes.
pub open spec fn register_field_names(el: Element) -> Seq<Seq<char>> {
    bitfield_names(el, None) + mode_parts(el).flatten()
}

proof fn lemma_contains_concat(a: Seq<Seq<char>>, b: Seq<Seq<char>>, k: Seq<char>)
    ensures
        (a + b).contains(k) <==> (a.contains(k) || b.contains(k)),
{
    if (a + b).contains(k) {
        let i = choose|i: int| 0 <= i < (a + b).len() && (a + b)[i] == k;
        if i < a.len() {
            assert(a[i] == k);
        } else {
            assert(b[i - a.len()] == k);
        }
    }
    if a.contains(k) {
        let i = choose|i: int| 0 <= i < a.len() && a[i] == k;
        assert((a + b)[i] == k);
    }
    if b.contains(k) {
        let i = choose|i: int| 0 <= i < b.len() && b[i] == k;
        assert((a + b)[a.len() + i] == k);
    }
}

/// Whether `v` is the field that one of the first `n` bitfield elements `bs`
/// declares under the mode `mode`.
pub open spec fn declared_by_bitfield(
    bs: Seq<Element>,
    n: int,
    groups: Seq<(Seq<char>, Seq<(Seq<char>, EnumeratedValue)>)>,
    mode: Option<Seq<char>>,
    v: FieldModel,
) -> bool {
    exists|j: int| 0 <= j < n && #[trigger] field_matches(bs[j], groups, mode, v)
}

/// Whether `v` is the field that a bitfield of the register element `el`
/// declares: one of its own, or one under one of its first `n` named modes.
pub open spec fn field_declared_upto(
    el: Element,
    n: int,
    groups: Seq<(Seq<char>, Seq<(Seq<char>, EnumeratedValue)>)>,
    v: FieldModel,
) -> bool {
    let ms = named_among(el.children@, "mode"@);
    let own = named_among(el.children@, "bitfield"@);
    ||| declared_by_bitfield(own, own.len() as int, groups, None, v)
    ||| exists|i: int|
        0 <= i < n && attr_of(&ms[i], "name"@) is Some && #[trigger] declared_by_bitfield(
            named_among(ms[i].children@, "bitfield"@),
            named_among(ms[i].children@, "bitfield"@).len() as int,
            groups,
            attr_of(&ms[i], "name"@),
            v,
        )
}

/// Whether `v` is the field that a bitfield of the register element `el`
/// declares, directly or under one of its named modes.
pub open spec fn field_declared(
    el: Element,
    groups: Seq<(Seq<char>, Seq<(Seq<char>, EnumeratedValue)>)>,
    v: FieldModel,
) -> bool {
    field_declared_upto(el, named_among(el.children@, "mode"@).len() as int, groups, v)
}

/// Adds a field for each bitfield child of `el`, declared under the mode
/// `mode_name` where one is given; a later field replaces one of the same name.
fn add_bitfield_children(
    el: &Element,
    values: &ValueGroups,
    mode_name: Option<&str>,
    fields: &mut NameMap<Field>,
    warnings: &mut Vec<Warning>,
) -> (r: Result<(), Error>)
    requires
        keyed_by_name(old(fields)@),
    ensures
        r is Ok <==> bitfields_ok(*el, values@),
        keyed_by_name(final(fields)@),
        r is Ok ==> forall|i: int|
            0 <= i < named_among(el.children@, "bitfield"@).len() ==> has_key(
                final(fields)@,
                field_name(
                    str_view(mode_name),
                    attr_of(&#[trigger] named_among(el.children@, "bitfield"@)[i], "name"@)->0,
                ),
            ),
        forall|k: Seq<char>| has_key(old(fields)@, k) ==> has_key(final(fields)@, k),
        r is Ok ==> forall|k: Seq<char>|
            has_key(final(fields)@, k) <==> (has_key(old(fields)@, k) || bitfield_names(
                *el,
                str_view(mode_name),
            ).contains(k)),
        r is Ok ==> forall|k: Seq<char>|
            #![trigger has_key(final(fields)@, k)]
            has_key(final(fields)@, k) ==> (has_key(old(fields)@, k) && value_at(final(fields)@, k)
                == value_at(old(fields)@, k)) || declared_by_bitfield(
                named_among(el.children@, "bitfield"@),
                named_among(el.children@, "bitfield"@).len() as int,
                values@,
                str_view(mode_name),
                value_at(final(fields)@, k),
            ),
        old(warnings)@.is_prefix_of(final(warnings)@),
{
    let ghost names = bitfield_names(*el, str_view(mode_name));
    let bitfields = el.children_named("bitfield");
    let ghost bs = named_among(el.children@, "bitfield"@);
    let ghost f0 = fields@;
    let ghost w0 = warnings@;
    assert(bitfields@.len() == bs.len());
    let mut i: usize = 0;
    while i < bitfields.len()
        invariant
            i <= bitfields@.len(),
            bs == named_among(el.children@, "bitfield"@),
            bitfields@.len() == bs.len(),
            forall|j: int| 0 <= j < bs.len() ==> *bitfields@[j] == #[trigger] bs[j],
            forall|j: int| 0 <= j < i ==> field_ok(#[trigger] bs[j], values@),
            forall|j: int|
                0 <= j < i ==> has_key(
                    fields@,
                    field_name(str_view(mode_name), attr_of(&#[trigger] bs[j], "name"@)->0),
                ),
            keyed_by_name(fields@),
            forall|k: Seq<char>| has_key(f0, k) ==> has_key(fields@, k),
            w0.is_prefix_of(warnings@),
            f0 == old(fields)@,
            w0 == old(warnings)@,
            names == bitfield_names(*el, str_view(mode_name)),
            forall|k: Seq<char>|
                has_key(fields@, k) <==> (has_key(f0, k) || names.subrange(0, i as int).contains(k)),
            forall|k: Seq<char>|
                #![trigger has_key(fields@, k)]
                has_key(fields@, k) ==> (has_key(f0, k) && value_at(fields@, k) == value_at(f0, k))
                    || declared_by_bitfield(bs, i as int, values@, str_view(mode_name), value_at(fields@, k)),
        decreases bitfields@.len() - i,
    {
        assert(*bitfields@[i as int] == bs[i as int]);
        let ghost w1 = warnings@;
        let f = match field::parse(bitfields[i], values, mode_name, warnings) {
            Ok(f) => f,
            Err(e) => {
                assert(!field_ok(bs[i as int], values@));
                proof {
                    lemma_prefix_trans(w0, w1, warnings@);
                }
                return Err(e);
            },
        };
        let key = f.name.clone();
        let ghost before = fields@;
        let ghost fv = f@;
        fields.insert(key, f);
        proof {
            assert(field_matches(bs[i as int], values@, str_view(mode_name), fv));
            assert forall|k: Seq<char>| #![trigger has_key(fields@, k)]
                has_key(fields@, k) implies (has_key(f0, k) && value_at(fields@, k) == value_at(f0, k))
                    || declared_by_bitfield(bs, i + 1, values@, str_view(mode_name), value_at(fields@, k)) by {
                if k == fv.name@ {
                    assert(declared_by_bitfield(bs, i + 1, values@, str_view(mode_name), value_at(fields@, k)));
                } else {
                    assert(has_key(before, k));
                    if !(has_key(f0, k) && value_at(before, k) == value_at(f0, k)) {
                        let j = choose|j: int| 0 <= j < i && #[trigger] field_matches(bs[j], values@, str_view(mode_name), value_at(before, k));
                        assert(field_matches(bs[j], values@, str_view(mode_name), value_at(fields@, k)));
                    }
                }
            }
            assert(keyed_by_name(fields@)) by {
                assert forall|t: int| 0 <= t < fields@.len() implies (#[trigger] fields@[t]).0
                    == fields@[t].1.name@ by {
                    if has_key(before, fv.name@) {
                        let p = choose|p: int|
                            0 <= p < before.len() && before[p].0 == fv.name@ && fields@
                                == before.update(p, (fv.name@, fv));
                        if t != p {
                            assert(fields@[t] == before[t]);
                        }
                    } else {
                        let p = choose|p: int|
                            0 <= p <= before.len() && fields@ == before.insert(p, (fv.name@, fv));
                        if t < p {
                            assert(fields@[t] == before[t]);
                        } else if t > p {
                            assert(fields@[t] == before[t - 1]);
                        }
                    }
                }
            }
            lemma_prefix_trans(w0, w1, warnings@);
            assert(names[i as int] == fv.name@);
            assert forall|k: Seq<char>|
                has_key(fields@, k) <==> (has_key(f0, k) || names.subrange(0, i + 1).contains(k)) by {
                assert(names.subrange(0, i + 1) =~= names.subrange(0, i as int).push(names[i as int]));
                if names.subrange(0, i + 1).contains(k) && k != fv.name@ {
                    let t = choose|t: int| 0 <= t < i + 1 && #[trigger] names.subrange(0, i + 1)[t] == k;
                    assert(names.subrange(0, i as int)[t] == k);
                }
                if names.subrange(0, i as int).contains(k) {
                    let t = choose|t: int| 0 <= t < i && #[trigger] names.subrange(0, i as int)[t] == k;
                    assert(names.subrange(0, i + 1)[t] == k);
                }
                if k == fv.name@ {
                    assert(names.subrange(0, i + 1)[i as int] == k);
                }
            }
        }
        i = i + 1;
    }
    assert(names.subrange(0, i as int) =~= names);
    Ok(())
}

/// Whether a register element can be read at the base address `address`.
pub open spec fn register_ok(
    el: Element,
    address: usize,
    groups: Seq<(Seq<char>, Seq<(Seq<char>, EnumeratedValue)>)>,
) -> bool {
    &&& attr_of(&el, "name"@) is Some
    &&& register_access_of(attr_of(&el, "rw"@)) is Some
    &&& bitfields_ok(el, groups)
    &&& forall|i: int|
        0 <= i < named_among(el.children@, "mode"@).len() && attr_of(
            &named_among(el.children@, "mode"@)[i],
            "name"@,
        ) is Some ==> bitfields_ok(#[trigger] named_among(el.children@, "mode"@)[i], groups)
    &&& attr_of(&el, "offset"@) matches Some(t) && is_int_text(t)
    &&& attr_of(&el, "size"@) matches Some(t) && is_int_text(t)
    &&& address + int_value(attr_of(&el, "offset"@)->0) <= usize::MAX
}

/// Whether `reg` is the register that the element `el` declares in a group
/// whose base address is `address`.
pub open spec fn register_matches(
    el: Element,
    address: usize,
    groups: Seq<(Seq<char>, Seq<(Seq<char>, EnumeratedValue)>)>,
    reg: RegisterModel,
) -> bool {
    &&& Some(reg.name@) == attr_of(&el, "name"@)
    &&& opt_view(reg.description) == nonempty_attr_of(&el, "caption"@)
    &&& opt_view(reg.mode) == nonempty_attr_of(&el, "modes"@)
    &&& Some(reg.access) == register_access_of(attr_of(&el, "rw"@))
    &&& reg.offset == int_value(attr_of(&el, "offset"@)->0)
    &&& reg.size == int_value(attr_of(&el, "size"@)->0)
    &&& reg.address == address + reg.offset
    &&& keyed_by_name(reg.fields)
    &&& forall|k: Seq<char>| has_key(reg.fields, k) <==> register_field_names(el).contains(k)
    &&& forall|k: Seq<char>|
        #![trigger has_key(reg.fields, k)]
        has_key(reg.fields, k) ==> field_declared(el, groups, value_at(reg.fields, k))
    &&& (reg.fields.len() == 0 ==> reg.restriction is Any)
    &&& (reg.fields.len() > 0 ==> reg.restriction is Unsafe)
}

/// Reads a register element of a group whose base address is `address`.
pub fn parse(
    el: &Element,
    address: usize,
    values: &ValueGroups,
    warnings: &mut Vec<Warning>,
) -> (r: Result<Register, Error>)
    ensures
        r is Ok <==> register_ok(*el, address, values@),
        r matches Ok(reg) ==> register_matches(*el, address, values@, reg@),
        old(warnings)@.is_prefix_of(final(warnings)@),
{
    let ghost w0 = warnings@;
    let name = el.attr("name")?.clone();
    let description = el.nonempty_attr("caption");
    let mode = el.nonempty_attr("modes");
    let rw = el.attr_opt("rw");
    let access = match register_access(
        match rw {
            Some(a) => Some(a.as_str()),
            None => None,
        },
    ) {
        Some(a) => a,
        None => {
            let a = match rw {
                Some(a) => a.as_str(),
                None => "",
            };
            let what = text::join3("access-mode '", quote(a).as_str(), "'");
            return Err(Error::UnsupportedAccessMode(UnsupportedError(what, el.debug())));
        },
    };
    let mut fields: NameMap<Field> = NameMap::new();
    let ghost empty = fields@;
    add_bitfield_children(el, values, None, &mut fields, warnings)?;
    let ghost direct = fields@;
    proof {
        assert forall|k: Seq<char>| #![trigger has_key(fields@, k)]
            has_key(fields@, k) implies field_declared_upto(*el, 0, values@, value_at(fields@, k)) by {
            assert(!has_key(empty, k));
        }
    }
    let modes = el.children_named("mode");
    let ghost ms = named_among(el.children@, "mode"@);
    let ghost parts = mode_parts(*el);
    let ghost own = bitfield_names(*el, None);
    assert(modes@.len() == ms.len());
    proof {
        assert(parts.subrange(0, 0).flatten() =~= Seq::<Seq<char>>::empty());
        assert forall|k: Seq<char>| has_key(fields@, k) <==> (own.contains(k) || parts.subrange(0, 0).flatten().contains(k)) by {
            assert(!has_key(Seq::<(Seq<char>, FieldModel)>::empty(), k));
        }
    }
    let mut i: usize = 0;
    while i < modes.len()
        invariant
            i <= modes@.len(),
            ms == named_among(el.children@, "mode"@),
            modes@.len() == ms.len(),
            forall|j: int| 0 <= j < ms.len() ==> *modes@[j] == #[trigger] ms[j],
            forall|j: int|
                0 <= j < i && attr_of(&ms[j], "name"@) is Some ==> bitfields_ok(#[trigger] ms[j], values@),
            keyed_by_name(fields@),
            forall|k: Seq<char>| has_key(direct, k) ==> has_key(fields@, k),
            w0.is_prefix_of(warnings@),
            w0 == old(warnings)@,
            parts == mode_parts(*el),
            own == bitfield_names(*el, None),
            parts.len() == ms.len(),
            forall|k: Seq<char>|
                #![trigger has_key(fields@, k)]
                has_key(fields@, k) <==> (own.contains(k) || parts.subrange(0, i as int).flatten().contains(k)),
            forall|k: Seq<char>|
                #![trigger has_key(fields@, k)]
                has_key(fields@, k) ==> field_declared_upto(*el, i as int, values@, value_at(fields@, k)),
        decreases modes@.len() - i,
    {
        let m = modes[i];
        assert(*m == ms[i as int]);
        let ghost before = fields@;
        let ghost done = parts.subrange(0, i as int).flatten();
        assert(forall|k: Seq<char>| #![trigger has_key(before, k)] has_key(before, k) <==> (own.contains(k) || done.contains(k)));
        proof {
            assert(parts.subrange(0, i + 1) =~= parts.subrange(0, i as int).push(parts[i as int]));
            parts.subrange(0, i as int).lemma_flatten_push(parts[i as int]);
            assert(parts[i as int] == mode_field_names(ms[i as int]));
            assert(parts.subrange(0, i + 1).flatten() == done + parts[i as int]);
        }
        match m.attr_opt("name") {
            Some(mode_name) => {
                let ghost w1 = warnings@;
                let res = add_bitfield_children(m, values, Some(mode_name.as_str()), &mut fields, warnings);
                proof {
                    lemma_prefix_trans(w0, w1, warnings@);
                }
                match res {
                    Ok(()) => {
                        proof {
                            assert(parts[i as int] == bitfield_names(*m, Some(mode_name@)));
                            assert forall|k: Seq<char>| has_key(fields@, k) <==> (own.contains(k) || parts.subrange(0, i + 1).flatten().contains(k)) by {
                                lemma_contains_concat(done, parts[i as int], k);
                            }
                            assert forall|k: Seq<char>| #![trigger has_key(fields@, k)]
                                has_key(fields@, k) implies field_declared_upto(*el, i + 1, values@, value_at(fields@, k)) by {
                                if has_key(before, k) && value_at(fields@, k) == value_at(before, k) {
                                    assert(field_declared_upto(*el, i as int, values@, value_at(before, k)));
                                } else {
                                    assert(attr_of(&ms[i as int], "name"@) == Some(mode_name@));
                                    assert(declared_by_bitfield(
                                        named_among(ms[i as int].children@, "bitfield"@),
                                        named_among(ms[i as int].children@, "bitfield"@).len() as int,
                                        values@,
                                        attr_of(&ms[i as int], "name"@),
                                        value_at(fields@, k),
                                    ));
                                }
                            }
                        }
                    },
                    Err(e) => {
                        assert(!bitfields_ok(ms[i as int], values@));
                        return Err(e);
                    },
                }
            },
            None => {
                proof {
                    assert(parts[i as int] =~= Seq::<Seq<char>>::empty());
                    assert forall|k: Seq<char>| has_key(fields@, k) <==> (own.contains(k) || parts.subrange(0, i + 1).flatten().contains(k)) by {
                        lemma_contains_concat(done, parts[i as int], k);
                    }
                    assert forall|k: Seq<char>| #![trigger has_key(fields@, k)]
                        has_key(fields@, k) implies field_declared_upto(*el, i + 1, values@, value_at(fields@, k)) by {
                        assert(field_declared_upto(*el, i as int, values@, value_at(before, k)));
                    }
                }
            },
        }
        i = i + 1;
    }
    proof {
        assert(parts.subrange(0, i as int) =~= parts);
        assert forall|k: Seq<char>| has_key(fields@, k) <==> register_field_names(*el).contains(k) by {
            lemma_contains_concat(own, parts.flatten(), k);
        }
    }
    let offset = parse_int(el.attr("offset")?.as_str())?;
    let size = parse_int(el.attr("size")?.as_str())?;
    let absolute = match address.checked_add(offset) {
        Some(a) => a,
        None => return Err(Error::AddressOverflow(name)),
    };
    let restriction = if fields.is_empty() {
        ValueRestriction::Any
    } else {
        ValueRestriction::Unsafe
    };
    Ok(Register {
        name,
        description,
        mode,
        address: absolute,
        offset,
        size,
        access,
        restriction,
        fields,
    })
}

/// The name under which a register is listed in its group: the mode, an
/// underscore and the name where it has a mode, else its name.
pub open spec fn register_key(mode: Option<Seq<char>>, name: Seq<char>) -> Seq<char> {
    match mode {
        Some(m) => m + "_"@ + name,
        None => name,
    }
}

/// Whether every entry of a register table is keyed by its register's mode
/// and name, and lies at `base` plus its own offset.
pub open spec fn registers_at(m: Seq<(Seq<char>, RegisterModel)>, base: int) -> bool {
    forall|i: int|
        0 <= i < m.len() ==> (#[trigger] m[i]).0 == register_key(opt_view(m[i].1.mode), m[i].1.name@)
            && m[i].1.address == base + m[i].1.offset
}

/// The key under which a register element is listed (see [`register_key`]).
pub open spec fn element_register_key(c: Element) -> Seq<char> {
    register_key(nonempty_attr_of(&c, "modes"@), attr_of(&c, "name"@)->0)
}

/// Whether `i` is the last of the first `n` register elements `rs` whose
/// key is `k`.
pub open spec fn last_register(rs: Seq<Element>, n: int, k: Seq<char>, i: int) -> bool {
    &&& 0 <= i < n
    &&& element_register_key(rs[i]) == k
    &&& forall|j: int| i < j < n ==> element_register_key(#[trigger] rs[j]) != k
}

/// Whether `m` is the register table of the first `n` register elements
/// `rs`, read at `address`: one entry per key, holding the register of the
/// last element with that key.
pub open spec fn register_table_upto(
    rs: Seq<Element>,
    n: int,
    address: usize,
    groups: Seq<(Seq<char>, Seq<(Seq<char>, EnumeratedValue)>)>,
    m: Seq<(Seq<char>, RegisterModel)>,
) -> bool {
    &&& forall|k: Seq<char>|
        #![trigger has_key(m, k)]
        has_key(m, k) <==> exists|i: int| 0 <= i < n && element_register_key(rs[i]) == k
    &&& forall|k: Seq<char>|
        #![trigger has_key(m, k)]
        has_key(m, k) ==> exists|i: int|
            last_register(rs, n, k, i) && register_matches(rs[i], address, groups, value_at(m, k))
}

/// Whether `m` is the register table that the register children of `el`
/// give at `address`.
pub open spec fn register_table(
    el: Element,
    address: usize,
    groups: Seq<(Seq<char>, Seq<(Seq<char>, EnumeratedValue)>)>,
    m: Seq<(Seq<char>, RegisterModel)>,
) -> bool {
    let rs = named_among(el.children@, "register"@);
    &&& registers_at(m, address as int)
    &&& unique_keys(m)
    &&& register_table_upto(rs, rs.len() as int, address, groups, m)
}

/// Whether every register child of `el` can be read at `address`.
pub open spec fn registers_ok(
    el: Element,
    address: usize,
    groups: Seq<(Seq<char>, Seq<(Seq<char>, EnumeratedValue)>)>,
) -> bool {
    forall|i: int|
        0 <= i < named_among(el.children@, "register"@).len() ==> register_ok(
            #[trigger] named_among(el.children@, "register"@)[i],
            address,
            groups,
        )
}

/// Reads the register children of a register-group element whose base
/// address is `offset`, keyed by mode and name; a later register replaces an
/// earlier one under the same key.
pub fn parse_list(
    register_group_el: &Element,
    offset: usize,
    value_groups: &ValueGroups,
    warnings: &mut Vec<Warning>,
) -> (r: Result<NameMap<Register>, Error>)
    ensures
        r is Ok <==> registers_ok(*register_group_el, offset, value_groups@),
        r matches Ok(m) ==> register_table(*register_group_el, offset, value_groups@, m@),
        old(warnings)@.is_prefix_of(final(warnings)@),
{
    let regs = register_group_el.children_named("register");
    let ghost rs = named_among(register_group_el.children@, "register"@);
    let ghost w0 = warnings@;
    assert(regs@.len() == rs.len());
    let mut m: NameMap<Register> = NameMap::new();
    let mut i: usize = 0;
    while i < regs.len()
        invariant
            i <= regs@.len(),
            rs == named_among(register_group_el.children@, "register"@),
            regs@.len() == rs.len(),
            forall|j: int| 0 <= j < rs.len() ==> *regs@[j] == #[trigger] rs[j],
            forall|j: int| 0 <= j < i ==> register_ok(#[trigger] rs[j], offset, value_groups@),
            register_table_upto(rs, i as int, offset, value_groups@, m@),
            registers_at(m@, offset as int),
            w0.is_prefix_of(warnings@),
            w0 == old(warnings)@,
        decreases regs@.len() - i,
    {
        assert(*regs@[i as int] == rs[i as int]);
        let ghost w1 = warnings@;
        let res = parse(regs[i], offset, value_groups, warnings);
        proof {
            lemma_prefix_trans(w0, w1, warnings@);
        }
        let reg = match res {
            Ok(reg) => reg,
            Err(e) => {
                assert(!register_ok(rs[i as int], offset, value_groups@));
                return Err(e);
            },
        };
        let key = match &reg.mode {
            Some(mode) => text::join3(mode.as_str(), "_", reg.name.as_str()),
            None => reg.name.clone(),
        };
        let ghost before = m@;
        let ghost rv = reg@;
        m.insert(key, reg);
        proof {
            let k0 = register_key(opt_view(rv.mode), rv.name@);
            assert(element_register_key(rs[i as int]) == k0);
            assert forall|k: Seq<char>| #![trigger has_key(m@, k)]
                has_key(m@, k) <==> exists|j: int| 0 <= j < i + 1 && element_register_key(rs[j]) == k by {
                if k != k0 && (exists|j: int| 0 <= j < i + 1 && element_register_key(rs[j]) == k) {
                    let j = choose|j: int| 0 <= j < i + 1 && element_register_key(rs[j]) == k;
                    assert(j < i);
                    assert(has_key(before, k));
                }
            }
            assert forall|k: Seq<char>| #![trigger has_key(m@, k)]
                has_key(m@, k) implies exists|j: int|
                    last_register(rs, i + 1, k, j) && register_matches(rs[j], offset, value_groups@, value_at(m@, k)) by {
                if k == k0 {
                    assert(last_register(rs, i + 1, k, i as int));
                } else {
                    assert(has_key(before, k));
                    let j = choose|j: int|
                        last_register(rs, i as int, k, j) && register_matches(rs[j], offset, value_groups@, value_at(before, k));
                    assert(last_register(rs, i + 1, k, j));
                }
            }
            assert forall|t: int| 0 <= t < m@.len() implies (#[trigger] m@[t]).0 == register_key(
                opt_view(m@[t].1.mode),
                m@[t].1.name@,
            ) && m@[t].1.address == offset + m@[t].1.offset by {
                let k = register_key(opt_view(rv.mode), rv.name@);
                if has_key(before, k) {
                    let p = choose|p: int|
                        0 <= p < before.len() && before[p].0 == k && m@ == before.update(p, (k, rv));
                    if t != p {
                        assert(m@[t] == before[t]);
                    }
                } else {
                    let p = choose|p: int| 0 <= p <= before.len() && m@ == before.insert(p, (k, rv));
                    if t < p {
                        assert(m@[t] == before[t]);
                    } else if t > p {
                        assert(m@[t] == before[t - 1]);
                    }
                }
            }
        }
        i = i + 1;
    }
    proof {
        use_type_invariant(&m);
    }
    Ok(m)
}

/// Two register tables of one register-group element hold the same offset
/// under each key, whatever enumerations they were read with.
pub proof fn lemma_register_tables_offsets(
    el: Element,
    address: usize,
    g1: Seq<(Seq<char>, Seq<(Seq<char>, EnumeratedValue)>)>,
    g2: Seq<(Seq<char>, Seq<(Seq<char>, EnumeratedValue)>)>,
    r1: Seq<(Seq<char>, RegisterModel)>,
    r2: Seq<(Seq<char>, RegisterModel)>,
    k: Seq<char>,
)
    requires
        register_table(el, address, g1, r1),
        register_table(el, address, g2, r2),
        has_key(r1, k),
    ensures
        has_key(r2, k),
        value_at(r1, k).offset == value_at(r2, k).offset,
{
    let rs = named_among(el.children@, "register"@);
    let n = rs.len() as int;
    assert(has_key(r1, k));
    let i1 = choose|i: int| last_register(rs, n, k, i) && register_matches(rs[i], address, g1, value_at(r1, k));
    assert(exists|i: int| 0 <= i < n && element_register_key(rs[i]) == k);
    assert(has_key(r2, k));
    let i2 = choose|i: int| last_register(rs, n, k, i) && register_matches(rs[i], address, g2, value_at(r2, k));
    if i1 < i2 {
        assert(element_register_key(rs[i2]) != k);
    }
    if i2 < i1 {
        assert(element_register_key(rs[i1]) != k);
    }
}

/// Whether two enumeration tables hold the same names.
pub open spec fn same_group_names(
    g1: Seq<(Seq<char>, Seq<(Seq<char>, EnumeratedValue)>)>,
    g2: Seq<(Seq<char>, Seq<(Seq<char>, EnumeratedValue)>)>,
) -> bool {
    forall|k: Seq<char>| #[trigger] has_key(g1, k) == has_key(g2, k)
}

proof fn lemma_bitfields_ok_names(
    el: Element,
    g1: Seq<(Seq<char>, Seq<(Seq<char>, EnumeratedValue)>)>,
    g2: Seq<(Seq<char>, Seq<(Seq<char>, EnumeratedValue)>)>,
)
    requires
        same_group_names(g1, g2),
        bitfields_ok(el, g1),
    ensures
        bitfields_ok(el, g2),
{
    let bs = named_among(el.children@, "bitfield"@);
    assert forall|i: int| 0 <= i < bs.len() implies field_ok(#[trigger] bs[i], g2) by {
        assert(field_ok(bs[i], g1));
        match attr_of(&bs[i], "values"@) {
            Some(id) => {
                assert(has_key(g1, id) == has_key(g2, id));
            },
            None => {},
        }
    }
}

/// Whether registers can be read depends on the enumerations only through
/// their names.
pub proof fn lemma_registers_ok_names(
    el: Element,
    address: usize,
    g1: Seq<(Seq<char>, Seq<(Seq<char>, EnumeratedValue)>)>,
    g2: Seq<(Seq<char>, Seq<(Seq<char>, EnumeratedValue)>)>,
)
    requires
        same_group_names(g1, g2),
        registers_ok(el, address, g1),
    ensures
        registers_ok(el, address, g2),
{
    let rs = named_among(el.children@, "register"@);
    assert forall|i: int| 0 <= i < rs.len() implies register_ok(#[trigger] rs[i], address, g2) by {
        let r = rs[i];
        assert(register_ok(r, address, g1));
        lemma_bitfields_ok_names(r, g1, g2);
        let ms = named_among(r.children@, "mode"@);
        assert forall|j: int| 0 <= j < ms.len() && attr_of(&ms[j], "name"@) is Some implies bitfields_ok(#[trigger] ms[j], g2) by {
            lemma_bitfields_ok_names(ms[j], g1, g2);
        }
    }
}

} // verus!
