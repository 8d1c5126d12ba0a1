//! The enumerations that a module declares for its fields.
use vstd::prelude::*;
use crate::chip::EnumeratedValue;
use crate::element::{attr_of, named_among, nonempty_attr_of, opt_view, Element};
use crate::error::Error;
use crate::name_map::{has_key, value_at, NameMap};
use crate::util::{int_value, is_int_text, parse_int};

verus! {

/// Enumerations by name, each a table of values by name.
pub type ValueGroups = NameMap<NameMap<EnumeratedValue>>;

/// Whether a `value` element has a name and an integer value.
pub open spec fn value_ok(v: Element) -> bool {
    &&& attr_of(&v, "name"@) is Some
    &&& attr_of(&v, "value"@) matches Some(t) && is_int_text(t)
}

/// The enumerated value that a well-formed `value` element declares.
pub open spec fn value_matches(v: Element, ev: EnumeratedValue) -> bool {
    &&& Some(ev.name@) == attr_of(&v, "name"@)
    &&& opt_view(ev.description) == nonempty_attr_of(&v, "caption"@)
    &&& ev.value == int_value(attr_of(&v, "value"@)->0)
}

/// Whether a `value-group` element has a name and well-formed values.
pub open spec fn value_group_ok(g: Element) -> bool {
    &&& attr_of(&g, "name"@) is Some
    &&& forall|i: int|
        0 <= i < named_among(g.children@, "value"@).len() ==> value_ok(
            #[trigger] named_among(g.children@, "value"@)[i],
        )
}

/// Whether every `value-group` child of a module is well-formed.
pub open spec fn value_groups_ok(module: Element) -> bool {
    forall|i: int|
        0 <= i < named_among(module.children@, "value-group"@).len() ==> value_group_ok(
            #[trigger] named_among(module.children@, "value-group"@)[i],
        )
}

/// Whether `i` is the last of the first `n` elements `es` named `k`.
pub open spec fn last_named(es: Seq<Element>, n: int, k: Seq<char>, i: int) -> bool {
    &&& 0 <= i < n
    &&& attr_of(&es[i], "name"@) == Some(k)
    &&& forall|j: int| i < j < n ==> attr_of(&#[trigger] es[j], "name"@) != Some(k)
}

/// Whether `table` holds, under each name that a `value` element of `g`
/// carries, the value that the last such element declares, and no other name.
pub open spec fn table_of(g: Element, table: Seq<(Seq<char>, EnumeratedValue)>) -> bool {
    let values = named_among(g.children@, "value"@);
    &&& forall|k: Seq<char>|
        has_key(table, k) <==> exists|i: int|
            0 <= i < values.len() && attr_of(&#[trigger] values[i], "name"@) == Some(k)
    &&& forall|k: Seq<char>|
        #![trigger has_key(table, k)]
        has_key(table, k) ==> exists|i: int|
            last_named(values, values.len() as int, k, i) && value_matches(values[i], value_at(table, k))
}

fn parse_value(v: &Element) -> (r: Result<EnumeratedValue, Error>)
    ensures
        r is Ok <==> value_ok(*v),
        r matches Ok(ev) ==> value_matches(*v, ev),
{
    let name = v.attr("name")?.clone();
    let description = v.nonempty_attr("caption");
    let value = parse_int(v.attr("value")?.as_str())?;
    Ok(EnumeratedValue { name, description, value })
}

fn parse_value_group(g: &Element) -> (r: Result<NameMap<EnumeratedValue>, Error>)
    requires
        attr_of(g, "name"@) is Some,
    ensures
        r is Ok <==> value_group_ok(*g),
        r matches Ok(t) ==> table_of(*g, t@),
{
    let values = g.children_named("value");
    let ghost vs = named_among(g.children@, "value"@);
    assert(values@.len() == vs.len());
    let mut table: NameMap<EnumeratedValue> = NameMap::new();
    let mut i: usize = 0;
    while i < values.len()
        invariant
            i <= values@.len(),
            vs == named_among(g.children@, "value"@),
            values@.len() == vs.len(),
            forall|j: int| 0 <= j < vs.len() ==> *values@[j] == #[trigger] vs[j],
            forall|j: int| 0 <= j < i ==> value_ok(#[trigger] vs[j]),
            forall|k: Seq<char>|
                has_key(table@, k) <==> exists|j: int|
                    0 <= j < i && attr_of(&#[trigger] vs[j], "name"@) == Some(k),
            forall|k: Seq<char>|
                #![trigger has_key(table@, k)]
                has_key(table@, k) ==> exists|j: int|
                    last_named(vs, i as int, k, j) && value_matches(vs[j], value_at(table@, k)),
        decreases values@.len() - i,
    {
        assert(*values@[i as int] == vs[i as int]);
        let ev = match parse_value(values[i]) {
            Ok(ev) => ev,
            Err(e) => {
                assert(!value_ok(vs[i as int]));
                assert(!value_group_ok(*g));
                return Err(e);
            },
        };
        let key = ev.name.clone();
        let ghost old_table = table@;
        let ghost evv = ev;
        table.insert(key, ev);
        proof {
            assert(attr_of(&vs[i as int], "name"@) == Some(evv.name@));
            assert forall|k: Seq<char>| #![trigger has_key(table@, k)]
                has_key(table@, k) implies exists|j: int|
                    last_named(vs, i + 1, k, j) && value_matches(vs[j], value_at(table@, k)) by {
                if k == evv.name@ {
                    assert(last_named(vs, i + 1, k, i as int));
                    assert(value_matches(vs[i as int], value_at(table@, k)));
                } else {
                    assert(has_key(old_table, k));
                    let j = choose|j: int| last_named(vs, i as int, k, j) && value_matches(vs[j], value_at(old_table, k));
                    assert(last_named(vs, i + 1, k, j));
                }
            }
            assert forall|k: Seq<char>|
                (exists|j: int|
                    0 <= j < i + 1 && attr_of(&#[trigger] vs[j], "name"@) == Some(k)) implies has_key(table@, k) by {
                if k != evv.name@ {
                    let j = choose|j: int| 0 <= j < i + 1 && attr_of(&#[trigger] vs[j], "name"@) == Some(k);
                    assert(j != i);
                }
            }
        }
        i = i + 1;
    }
    Ok(table)
}

/// Whether `groups` holds, under each value-group name that `module`
/// declares, the table of the last value group of that name, and no other
/// name.
pub open spec fn value_groups_of(
    module: Element,
    groups: Seq<(Seq<char>, Seq<(Seq<char>, EnumeratedValue)>)>,
) -> bool {
    let gs = named_among(module.children@, "value-group"@);
    &&& forall|k: Seq<char>|
        has_key(groups, k) <==> exists|i: int|
            0 <= i < gs.len() && attr_of(&#[trigger] gs[i], "name"@) == Some(k)
    &&& forall|k: Seq<char>|
        #![trigger has_key(groups, k)]
        has_key(groups, k) ==> exists|i: int|
            last_named(gs, gs.len() as int, k, i) && table_of(gs[i], value_at(groups, k))
}

/// Reads the value groups that a module declares. A later group or value of
/// the same name replaces an earlier one.
pub fn parse_value_groups(module_el: &Element) -> (r: Result<ValueGroups, Error>)
    ensures
        r is Ok <==> value_groups_ok(*module_el),
        r matches Ok(groups) ==> value_groups_of(*module_el, groups@),
{
    let groups_els = module_el.children_named("value-group");
    let ghost gs = named_among(module_el.children@, "value-group"@);
    assert(groups_els@.len() == gs.len());
    let mut groups: ValueGroups = NameMap::new();
    let mut i: usize = 0;
    while i < groups_els.len()
        invariant
            i <= groups_els@.len(),
            gs == named_among(module_el.children@, "value-group"@),
            groups_els@.len() == gs.len(),
            forall|j: int| 0 <= j < gs.len() ==> *groups_els@[j] == #[trigger] gs[j],
            forall|j: int| 0 <= j < i ==> value_group_ok(#[trigger] gs[j]),
            forall|k: Seq<char>|
                has_key(groups@, k) <==> exists|j: int|
                    0 <= j < i && attr_of(&#[trigger] gs[j], "name"@) == Some(k),
            forall|k: Seq<char>|
                #![trigger has_key(groups@, k)]
                has_key(groups@, k) ==> exists|j: int|
                    last_named(gs, i as int, k, j) && table_of(gs[j], value_at(groups@, k)),
        decreases groups_els@.len() - i,
    {
        let g = groups_els[i];
        assert(*g == gs[i as int]);
        let name = match g.attr("name") {
            Ok(n) => n.clone(),
            Err(e) => {
                assert(!value_group_ok(gs[i as int]));
                return Err(e);
            },
        };
        let table = match parse_value_group(g) {
            Ok(t) => t,
            Err(e) => {
                assert(!value_group_ok(gs[i as int]));
                return Err(e);
            },
        };
        let ghost key = name@;
        let ghost before_groups = groups@;
        groups.insert(name, table);
        proof {
            assert(attr_of(&gs[i as int], "name"@) == Some(key));
            assert forall|k: Seq<char>| #![trigger has_key(groups@, k)]
                has_key(groups@, k) implies exists|j: int|
                    last_named(gs, i + 1, k, j) && table_of(gs[j], value_at(groups@, k)) by {
                if k == key {
                    assert(last_named(gs, i + 1, k, i as int));
                    assert(table_of(gs[i as int], value_at(groups@, k)));
                } else {
                    assert(has_key(before_groups, k));
                    let j = choose|j: int| last_named(gs, i as int, k, j) && table_of(gs[j], value_at(before_groups, k));
                    assert(last_named(gs, i + 1, k, j));
                }
            }
            assert forall|k: Seq<char>|
                (exists|j: int|
                    0 <= j < i + 1 && attr_of(&#[trigger] gs[j], "name"@) == Some(k)) implies has_key(
                    groups@,
                    k,
                ) by {
                if k != key {
                    let j = choose|j: int|
                        0 <= j < i + 1 && attr_of(&#[trigger] gs[j], "name"@) == Some(k);
                    assert(j != i);
                }
            }
        }
        i = i + 1;
    }
    Ok(groups)
}

} // verus!
