//! Bit fields: their name, bit range, access and permitted values.
use vstd::prelude::*;
use vstd::std_specs::bits::*;
use crate::atdf::values::ValueGroups;
use crate::chip::{AccessMode, EnumeratedValue, Field, FieldModel, RestrictionModel, ValueRestriction};
use crate::element::{attr_of, nonempty_attr_of, opt_view, quote, Element};
use crate::error::{Error, MissingElement, UnsupportedError, Warning};
use crate::name_map::{has_key, unique_keys, value_at, Duplicate, NameMap};
use crate::text;
use crate::util::{int_value, is_int_text, mask_span, parse_int, parse_mask};

verus! {

broadcast use {axiom_u64_trailing_zeros, vstd::seq_lib::group_filter_ensures};

/// The access that a field's `rw` attribute gives: none and empty mean
/// read-write; `None` for a value that is not understood.
pub open spec fn field_access_of(rw: Option<Seq<char>>) -> Option<AccessMode> {
    match rw {
        None => Some(AccessMode::ReadWrite),
        Some(s) => if s == "R"@ {
            Some(AccessMode::ReadOnly)
        } else if s == "RW"@ {
            Some(AccessMode::ReadWrite)
        } else if s == "W"@ {
            Some(AccessMode::WriteOnly)
        } else if s.len() == 0 {
            Some(AccessMode::ReadWrite)
        } else {
            None
        },
    }
}

/// Reads a field's `rw` attribute.
pub fn field_access(rw: Option<&str>) -> (r: Option<AccessMode>)
    ensures
        r == field_access_of(
            match rw {
                Some(s) => Some(s@),
                None => None,
            },
        ),
{
    match rw {
        None => Some(AccessMode::ReadWrite),
        Some(s) => if text::equal(s, "R") {
            Some(AccessMode::ReadOnly)
        } else if text::equal(s, "RW") {
            Some(AccessMode::ReadWrite)
        } else if text::equal(s, "W") {
            Some(AccessMode::WriteOnly)
        } else if s.unicode_len() == 0 {
            Some(AccessMode::ReadWrite)
        } else {
            None
        },
    }
}

/// Whether `value`, read from bit 0, fits in the bits of `mask` moved down to
/// bit 0.
pub open spec fn fits_mask(value: usize, mask: u64) -> bool {
    (value as u64) & (mask >> (u64_trailing_zeros(mask) as u64)) == value as u64
}

/// The values of `vs` that fit `mask`, in order.
pub open spec fn fitting_values(vs: Seq<(Seq<char>, EnumeratedValue)>, mask: u64) -> Seq<
    (Seq<char>, EnumeratedValue),
> {
    vs.filter(|e: (Seq<char>, EnumeratedValue)| fits_mask(e.1.value, mask))
}

/// The restriction of a field with the mask `mask`, whose bits have a gap when
/// `has_gap`, and with the enumeration `values` where it has one.
pub open spec fn field_restriction(
    values: Option<Seq<(Seq<char>, EnumeratedValue)>>,
    mask: u64,
    has_gap: bool,
) -> RestrictionModel {
    match values {
        Some(vs) => if fitting_values(vs, mask).len() > 0 {
            RestrictionModel::Enumerated(fitting_values(vs, mask))
        } else {
            RestrictionModel::Unsafe
        },
        None => if has_gap {
            RestrictionModel::Unsafe
        } else {
            RestrictionModel::Any
        },
    }
}

/// The restriction of a field (see [`field_restriction`]), and whether some
/// value of the enumeration was dropped because it does not fit the mask.
pub fn derive_restriction(values: Option<&NameMap<EnumeratedValue>>, mask: u64, has_gap: bool) -> (r: (
    ValueRestriction,
    bool,
))
    requires
        mask != 0,
    ensures
        r.0@ == field_restriction(
            match values {
                Some(m) => Some(m@),
                None => None,
            },
            mask,
            has_gap,
        ),
        r.1 == (values matches Some(m) && fitting_values(m@, mask).len() < m@.len()),
{
    match values {
        None => if has_gap {
            (ValueRestriction::Unsafe, false)
        } else {
            (ValueRestriction::Any, false)
        },
        Some(m) => {
            proof {
                use_type_invariant(m);
            }
            let shifted = mask >> (mask.trailing_zeros() as u64);
            let ghost p = |e: (Seq<char>, EnumeratedValue)| fits_mask(e.1.value, mask);
            let mut kept: NameMap<EnumeratedValue> = NameMap::new();
            let mut i: usize = 0;
            while i < m.len()
                invariant
                    i <= m@.len(),
                    unique_keys(m@),
                    crate::name_map::ascending_keys(m@),
                    shifted == mask >> (u64_trailing_zeros(mask) as u64),
                    p == (|e: (Seq<char>, EnumeratedValue)| fits_mask(e.1.value, mask)),
                    kept@ == m@.subrange(0, i as int).filter(p),
                decreases m@.len() - i,
            {
                let ev = m.value(i);
                let ghost pre = m@.subrange(0, i as int);
                proof {
                    assert(m@.subrange(0, i + 1) =~= pre.push(m@[i as int]));
                    pre.lemma_filter_push(m@[i as int], p);
                }
                if (ev.value as u64) & shifted == ev.value as u64 {
                    let k = m.key(i).clone();
                    proof {
                        if has_key(kept@, k@) {
                            let t = choose|t: int| 0 <= t < kept@.len() && #[trigger] kept@[t].0 == k@;
                            assert(kept@[t] == pre.filter(p)[t]);
                            assert(pre.filter(p).contains(kept@[t]));
                            pre.lemma_filter_contains_rev(p, kept@[t]);
                            let j = choose|j: int| 0 <= j < pre.len() && pre[j] == kept@[t];
                            assert(m@[j].0 == m@[i as int].0);
                        }
                        assert forall|t: int| 0 <= t < kept@.len() implies crate::text::precedes(#[trigger] kept@[t].0, k@) by {
                            assert(kept@[t] == pre.filter(p)[t]);
                            assert(pre.filter(p).contains(kept@[t]));
                            pre.lemma_filter_contains_rev(p, kept@[t]);
                            let j = choose|j: int| 0 <= j < pre.len() && pre[j] == kept@[t];
                            assert(m@[j] == pre[j]);
                            assert(k@ == m@[i as int].0);
                            assert(j < i);
                        }
                    }
                    kept.push_new(k, ev.duplicate());
                }
                i = i + 1;
            }
            assert(m@.subrange(0, i as int) =~= m@);
            let dropped = kept.len() < m.len();
            if kept.len() > 0 {
                (ValueRestriction::Enumerated(kept), dropped)
            } else {
                (ValueRestriction::Unsafe, dropped)
            }
        },
    }
}

/// The name of a field declared as `declared`, under the mode `mode` where
/// there is one.
pub open spec fn field_name(mode: Option<Seq<char>>, declared: Seq<char>) -> Seq<char> {
    match mode {
        Some(m) => m + "_"@ + declared,
        None => declared,
    }
}

/// The view of an optional string slice.
pub open spec fn str_view(o: Option<&str>) -> Option<Seq<char>> {
    match o {
        Some(s) => Some(s@),
        None => None,
    }
}

/// Whether a bitfield element can be read: it has a name and a non-zero
/// integer mask, its enumeration (if it names one) is among `groups`, and its
/// access is understood.
pub open spec fn field_ok(el: Element, groups: Seq<(Seq<char>, Seq<(Seq<char>, EnumeratedValue)>)>) -> bool {
    &&& attr_of(&el, "name"@) is Some
    &&& attr_of(&el, "mask"@) matches Some(m) && is_int_text(m) && int_value(m) != 0
    &&& (attr_of(&el, "values"@) matches Some(id) ==> has_key(groups, id))
    &&& field_access_of(attr_of(&el, "rw"@)) is Some
}

/// Whether `e` is the error that reading the bitfield `el` stops at: the
/// checks run in the order name, mask, enumeration, access.
pub open spec fn field_error(
    el: Element,
    groups: Seq<(Seq<char>, Seq<(Seq<char>, EnumeratedValue)>)>,
    e: Error,
) -> bool {
    if attr_of(&el, "name"@) is None || attr_of(&el, "mask"@) is None {
        e is MissingAttribute
    } else if !is_int_text(attr_of(&el, "mask"@)->0) {
        e is InvalidInteger
    } else if int_value(attr_of(&el, "mask"@)->0) == 0 {
        e is UnsupportedMask
    } else if attr_of(&el, "values"@) matches Some(id) && !has_key(groups, id) {
        e is MissingValueGroup
    } else {
        e is UnsupportedAccessMode
    }
}

/// Whether `f` is the field that the bitfield element `el` declares under the
/// mode `mode`, with the enumerations `groups`.
pub open spec fn field_matches(
    el: Element,
    groups: Seq<(Seq<char>, Seq<(Seq<char>, EnumeratedValue)>)>,
    mode: Option<Seq<char>>,
    f: FieldModel,
) -> bool {
    let mask = int_value(attr_of(&el, "mask"@)->0) as u64;
    let span = mask_span(mask)->0;
    &&& f.name@ == field_name(mode, attr_of(&el, "name"@)->0)
    &&& opt_view(f.description) == nonempty_attr_of(&el, "caption"@)
    &&& f.range == span.0
    &&& Some(f.access) == field_access_of(attr_of(&el, "rw"@))
    &&& f.restriction == field_restriction(
        match attr_of(&el, "values"@) {
            Some(id) => Some(value_at(groups, id)),
            None => None,
        },
        mask,
        span.1,
    )
}

/// Reads a bitfield element, declared under the mode `mode_name` where one is
/// given. Flaws that have a safe fallback are added to `warnings`.
pub fn parse(
    bitfield_el: &Element,
    value_groups: &ValueGroups,
    mode_name: Option<&str>,
    warnings: &mut Vec<Warning>,
) -> (r: Result<Field, Error>)
    ensures
        r is Ok <==> field_ok(*bitfield_el, value_groups@),
        r matches Err(e) ==> field_error(*bitfield_el, value_groups@, e),
        r matches Ok(f) ==> field_matches(*bitfield_el, value_groups@, str_view(mode_name), f@),
        old(warnings)@.is_prefix_of(final(warnings)@),
        r is Ok && attr_of(bitfield_el, "rw"@) == Some(Seq::<char>::empty()) ==> exists|i: int|
            old(warnings)@.len() <= i < final(warnings)@.len()
                && final(warnings)@[i] is EmptyAccessMode,
{
    let ghost w0 = warnings@;
    let declared = bitfield_el.attr("name")?;
    let name = match mode_name {
        Some(mode) => text::join3(mode, "_", declared.as_str()),
        None => declared.clone(),
    };
    let description = bitfield_el.nonempty_attr("caption");
    let values = bitfield_el.attr_opt("values");
    let mask = bitfield_el.attr("mask")?;
    let span = parse_mask(mask.as_str())?;
    let (range, has_gap) = match span {
        Some(s) => s,
        None => {
            let what = text::join("mask ", quote(mask.as_str()).as_str());
            return Err(Error::UnsupportedMask(UnsupportedError(what, bitfield_el.debug())));
        },
    };
    let mask_bits = parse_int(mask.as_str())? as u64;
    let restriction = match values {
        Some(id) => {
            let group = match value_groups.get(id.as_str()) {
                Some(g) => g,
                None => {
                    let what = text::join3("<value-group name=\"", id.as_str(), "\" ...>");
                    return Err(Error::MissingValueGroup(MissingElement(what, bitfield_el.debug())));
                },
            };
            let (restriction, dropped) = derive_restriction(Some(group), mask_bits, has_gap);
            if dropped {
                warnings.push(Warning::InvalidValuesDropped(name.clone()));
            }
            if let ValueRestriction::Unsafe = restriction {
                warnings.push(Warning::EmptyEnumeration(name.clone()));
            }
            restriction
        },
        None => derive_restriction(None, mask_bits, has_gap).0,
    };
    let rw = bitfield_el.attr_opt("rw");
    let access = match field_access(
        match rw {
            Some(a) => Some(a.as_str()),
            None => None,
        },
    ) {
        Some(a) => a,
        None => {
            let a = match rw {
                Some(a) => a.as_str(),
                None => "",
            };
            let what = text::join3("access-mode '", quote(a).as_str(), "'");
            return Err(Error::UnsupportedAccessMode(UnsupportedError(what, bitfield_el.debug())));
        },
    };
    match rw {
        Some(a) => if a.unicode_len() == 0 {
            warnings.push(Warning::EmptyAccessMode(bitfield_el.debug()));
            assert(warnings@.last() is EmptyAccessMode);
        },
        None => {},
    }
    assert(w0.is_prefix_of(warnings@));
    Ok(Field { name, description, range, access, restriction })
}

} // verus!
