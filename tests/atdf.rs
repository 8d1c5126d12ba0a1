use atdf2svd::atdf;
use atdf2svd::atdf::field::{derive_restriction, field_access};
use atdf2svd::atdf::interrupt::{merge_interrupts, merge_name};
use atdf2svd::atdf::register::register_access;
use atdf2svd::atdf::values::parse_value_groups;
use atdf2svd::chip::{AccessMode, EnumeratedValue, Interrupt, ValueRestriction};
use atdf2svd::element::{quote, Element};
use atdf2svd::error::{DisplayError, Error, Warning};
use atdf2svd::name_map::NameMap;

fn el(name: &str, attrs: &[(&str, &str)], children: Vec<Element>) -> Element {
    Element {
        prefix: None,
        name: name.to_string(),
        attributes: attrs.iter().map(|(k, v)| (k.to_string(), v.to_string())).collect(),
        children,
    }
}

fn values(vs: &[(&str, usize)]) -> NameMap<EnumeratedValue> {
    let mut m = NameMap::new();
    for (n, v) in vs {
        m.insert(n.to_string(), EnumeratedValue { name: n.to_string(), description: None, value: *v });
    }
    m
}

fn interrupt(name: &str, index: usize) -> Interrupt {
    Interrupt { name: name.to_string(), description: None, index }
}

#[test]
fn shared_vector_names_merge() {
    let mut warnings = Vec::new();
    let merged = merge_interrupts(vec![interrupt("UART0_RX", 5), interrupt("UART0_TX", 5)], &mut warnings);
    assert_eq!(merged.len(), 1);
    assert_eq!(merged[0].name, "UART0_RX_TX");
    assert_eq!(merged[0].index, 5);
    assert_eq!(warnings.len(), 1);
    assert!(matches!(warnings[0], Warning::InterruptsMerged(_, _, _)));
}

#[test]
fn merge_without_underscore_appends_whole_name() {
    assert_eq!(merge_name("INT0", "PCINT"), "INT0_PCINT");
    let mut warnings = Vec::new();
    let merged = merge_interrupts(
        vec![interrupt("A", 1), interrupt("B", 2), interrupt("C", 1), interrupt("D_E", 2)],
        &mut warnings,
    );
    let got: Vec<(String, usize)> = merged.iter().map(|i| (i.name.clone(), i.index)).collect();
    assert_eq!(got, vec![("A_C".to_string(), 1), ("B_E".to_string(), 2)]);
}

#[test]
fn enumerated_values_filtered_by_mask() {
    let all = values(&[("V0", 0), ("V1", 1), ("V2", 2), ("V3", 3)]);
    let (r, dropped) = derive_restriction(Some(&all), 0x1, false);
    assert!(dropped);
    match r {
        ValueRestriction::Enumerated(m) => {
            assert_eq!(m.len(), 2);
            assert_eq!(m.get("V0").unwrap().value, 0);
            assert_eq!(m.get("V1").unwrap().value, 1);
            assert!(m.get("V2").is_none());
        }
        _ => panic!("expected an enumeration"),
    }
    let high = values(&[("V2", 2), ("V3", 3)]);
    let (r, dropped) = derive_restriction(Some(&high), 0x1, false);
    assert!(dropped);
    assert!(matches!(r, ValueRestriction::Unsafe));
    // A shifted mask is moved down before values are compared.
    let (r, dropped) = derive_restriction(Some(&all), 0x30, false);
    assert!(!dropped);
    assert!(matches!(r, ValueRestriction::Enumerated(_)));
}

#[test]
fn restriction_without_enumeration() {
    assert!(matches!(derive_restriction(None, 0x12, true).0, ValueRestriction::Unsafe));
    assert!(matches!(derive_restriction(None, 0x0f, false).0, ValueRestriction::Any));
    assert!(matches!(derive_restriction(None, 0x01, false).0, ValueRestriction::Any));
}

#[test]
fn default_access_modes() {
    assert_eq!(field_access(None), Some(AccessMode::ReadWrite));
    assert_eq!(field_access(Some("")), Some(AccessMode::ReadWrite));
    assert_eq!(field_access(Some("R")), Some(AccessMode::ReadOnly));
    assert_eq!(field_access(Some("W")), Some(AccessMode::WriteOnly));
    assert_eq!(field_access(Some("RW")), Some(AccessMode::ReadWrite));
    assert_eq!(field_access(Some("X")), None);
    assert_eq!(register_access(None), Some(AccessMode::ReadWrite));
    assert_eq!(register_access(Some("")), Some(AccessMode::NoAccess));
    assert_eq!(register_access(Some("R")), Some(AccessMode::ReadOnly));
    assert_eq!(register_access(Some("X")), None);
}

#[test]
fn field_with_empty_access_warns() {
    let groups = NameMap::new();
    let mut warnings = Vec::new();
    let bf = el("bitfield", &[("name", "EN"), ("mask", "0x01"), ("rw", "")], vec![]);
    let f = atdf::field::parse(&bf, &groups, Some("MODE0"), &mut warnings).ok().unwrap();
    assert_eq!(f.name, "MODE0_EN");
    assert_eq!(f.range, (0, 0));
    assert_eq!(f.access, AccessMode::ReadWrite);
    assert!(matches!(f.restriction, ValueRestriction::Any));
    assert!(warnings.iter().any(|w| matches!(w, Warning::EmptyAccessMode(_))));

    let reg = el(
        "register",
        &[("name", "CTRL"), ("offset", "0x2"), ("size", "1"), ("rw", "")],
        vec![],
    );
    let r = atdf::register::parse(&reg, 0x100, &groups, &mut warnings).ok().unwrap();
    assert_eq!(r.access, AccessMode::NoAccess);
    assert_eq!(r.address, 0x102);
    assert_eq!(r.offset, 2);
    assert!(matches!(r.restriction, ValueRestriction::Any));
}

#[test]
fn field_errors() {
    let groups = NameMap::new();
    let mut w = Vec::new();
    let no_name = el("bitfield", &[("mask", "1")], vec![]);
    assert!(matches!(atdf::field::parse(&no_name, &groups, None, &mut w), Err(Error::MissingAttribute(_))));
    let zero = el("bitfield", &[("name", "A"), ("mask", "0")], vec![]);
    assert!(matches!(atdf::field::parse(&zero, &groups, None, &mut w), Err(Error::UnsupportedMask(_))));
    let bad = el("bitfield", &[("name", "A"), ("mask", "q")], vec![]);
    assert!(matches!(atdf::field::parse(&bad, &groups, None, &mut w), Err(Error::InvalidInteger(_))));
    let dangling = el("bitfield", &[("name", "A"), ("mask", "3"), ("values", "NOPE")], vec![]);
    assert!(matches!(atdf::field::parse(&dangling, &groups, None, &mut w), Err(Error::MissingValueGroup(_))));
    let access = el("bitfield", &[("name", "A"), ("mask", "3"), ("rw", "RX")], vec![]);
    let e = atdf::field::parse(&access, &groups, None, &mut w).err().unwrap();
    assert!(matches!(e, Error::UnsupportedAccessMode(_)));
    assert!(e.format().starts_with("access-mode '\"RX\"' is unsupported in element"));
}

#[test]
fn field_with_value_group() {
    let module = el(
        "module",
        &[("name", "M")],
        vec![el(
            "value-group",
            &[("name", "MODES")],
            vec![
                el("value", &[("name", "OFF"), ("value", "0"), ("caption", "Off")], vec![]),
                el("value", &[("name", "ON"), ("value", "1")], vec![]),
                el("value", &[("name", "HIGH"), ("value", "2")], vec![]),
            ],
        )],
    );
    let groups = parse_value_groups(&module).ok().unwrap();
    assert_eq!(groups.len(), 1);
    let modes = groups.get("MODES").unwrap();
    assert_eq!(modes.len(), 3);
    assert_eq!(modes.get("OFF").unwrap().description.as_deref(), Some("Off"));
    assert_eq!(modes.get("ON").unwrap().description, None);
    let mut w = Vec::new();
    let bf = el("bitfield", &[("name", "M"), ("mask", "0x10"), ("values", "MODES")], vec![]);
    let f = atdf::field::parse(&bf, &groups, None, &mut w).ok().unwrap();
    assert_eq!(f.range, (4, 4));
    match f.restriction {
        ValueRestriction::Enumerated(m) => assert_eq!(m.len(), 2),
        _ => panic!("expected an enumeration"),
    }
    assert!(w.iter().any(|x| matches!(x, Warning::InvalidValuesDropped(_))));
    let broken = el("module", &[], vec![el("value-group", &[("name", "G")], vec![el("value", &[("name", "X")], vec![])])]);
    assert!(matches!(parse_value_groups(&broken), Err(Error::MissingAttribute(_))));
}

#[test]
fn debug_quoting() {
    assert_eq!(quote("a\"b"), "\"a\\\"b\"");
    assert_eq!(quote("PORTB"), "\"PORTB\"");
}

#[test]
fn element_lookups() {
    let tree = el(
        "root",
        &[("id", "r")],
        vec![
            el("a", &[("name", "one")], vec![]),
            el("b", &[("name", "two")], vec![]),
            el("a", &[("name", "three")], vec![]),
        ],
    );
    assert_eq!(tree.attr("id").ok().unwrap(), "r");
    assert!(matches!(tree.attr("nope"), Err(Error::MissingAttribute(_))));
    assert_eq!(tree.first_child("a").ok().unwrap().attr("name").ok().unwrap(), "one");
    assert!(matches!(tree.first_child("c"), Err(Error::MissingElement(_))));
    assert_eq!(
        tree.first_child_by_attr(Some("a"), "name", "three").ok().unwrap().attr("name").ok().unwrap(),
        "three"
    );
    assert!(tree.first_child_by_attr(Some("b"), "name", "three").is_err());
    assert_eq!(tree.children_named("a").len(), 2);
    assert_eq!(tree.debug(), "<root id=\"r\" ...>");
    let prefixed = Element { prefix: Some("xs".to_string()), ..el("schema", &[], vec![]) };
    assert_eq!(prefixed.debug(), "<xs:schema ...>");
}

#[test]
fn field_names_under_modes_and_collisions() {
    let groups = NameMap::new();
    let mut w = Vec::new();
    let reg = el(
        "register",
        &[("name", "CTRL"), ("offset", "0"), ("size", "1"), ("modes", "NORMAL")],
        vec![
            el("bitfield", &[("name", "EN"), ("mask", "0x01"), ("caption", "first")], vec![]),
            el("bitfield", &[("name", "EN"), ("mask", "0x02"), ("caption", "second")], vec![]),
            el("mode", &[("name", "NORMAL")], vec![el("bitfield", &[("name", "EN"), ("mask", "0x04")], vec![])]),
            el("mode", &[], vec![el("bitfield", &[("name", "IGNORED"), ("mask", "0x08")], vec![])]),
        ],
    );
    let r = atdf::register::parse(&reg, 0, &groups, &mut w).ok().unwrap();
    assert_eq!(r.mode.as_deref(), Some("NORMAL"));
    assert_eq!(r.fields.len(), 2);
    // The later of two bitfields with one name wins.
    assert_eq!(r.fields.get("EN").unwrap().description.as_deref(), Some("second"));
    assert_eq!(r.fields.get("NORMAL_EN").unwrap().range, (2, 2));
    assert!(r.fields.get("IGNORED").is_none());
    assert!(matches!(r.restriction, ValueRestriction::Unsafe));
}

#[test]
fn error_messages() {
    let e = el("bitfield", &[("mask", "1")], vec![]);
    let m = atdf2svd::error::MissingAttribute::new("name", &e);
    assert_eq!(m.format(), "Missing attribute \"name\" on\n   <bitfield mask=\"1\" ...>");
    let m = atdf2svd::error::MissingElement::new("device", &e);
    assert_eq!(m.format(), "Missing child \"device\" in\n   <bitfield mask=\"1\" ...>");
    let r = atdf2svd::error::RecursiveRegisterGroupError::new("LOOP".to_string());
    assert_eq!(r.format(), "Recursive register group reference detected leading to LOOP");
    assert_eq!(
        Error::NoCpuPeripheral.format(),
        "No `CPU` peripheral found, to which interrupts can be added!"
    );
    assert_eq!(Error::InvalidInteger("x".to_string()).format(), "Invalid integer \"x\"");
}
