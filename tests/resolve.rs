use atdf2svd::atdf;
use atdf2svd::atdf::patch::{
    longest_common_prefix, port_rename_snake_case, remove_register_common_prefix,
    remove_unsafe_cpu_regs, signals_to_port_fields,
};
use atdf2svd::atdf::peripheral::normalize_base_address;
use atdf2svd::atdf::register_group::build_register_group_hierarchy;
use atdf2svd::chip::{AccessMode, Chip, Peripheral, Register, RegisterGroup, RegisterGroupReference, ValueRestriction};
use atdf2svd::element::Element;
use atdf2svd::error::{Error, RecursiveRegisterGroupError, Warning};
use atdf2svd::name_map::NameMap;

fn el(name: &str, attrs: &[(&str, &str)], children: Vec<Element>) -> Element {
    Element {
        prefix: None,
        name: name.to_string(),
        attributes: attrs.iter().map(|(k, v)| (k.to_string(), v.to_string())).collect(),
        children,
    }
}

fn register(name: &str, address: usize, offset: usize) -> Register {
    Register {
        name: name.to_string(),
        description: None,
        mode: None,
        address,
        offset,
        size: 1,
        access: AccessMode::ReadWrite,
        restriction: ValueRestriction::Any,
        fields: NameMap::new(),
    }
}

fn group(name: &str, registers: Vec<Register>, references: Vec<RegisterGroupReference>) -> RegisterGroup {
    let mut map = NameMap::new();
    for r in registers {
        map.insert(r.name.clone(), r);
    }
    RegisterGroup {
        name: name.to_string(),
        description: None,
        offset: 0,
        is_union: false,
        references,
        subgroups: vec![],
        registers: map,
    }
}

fn reference(name: &str, target: &str, offset: Option<usize>) -> RegisterGroupReference {
    RegisterGroupReference { name: name.to_string(), name_in_module: Some(target.to_string()), offset }
}

fn chain(depth: usize) -> NameMap<RegisterGroup> {
    let mut templates = NameMap::new();
    for k in 1..=depth {
        let refs = if k < depth { vec![reference(&format!("L{}", k + 1), &format!("T{}", k + 1), None)] } else { vec![] };
        templates.insert(format!("T{}", k), group(&format!("T{}", k), vec![], refs));
    }
    templates
}

fn nesting(g: &RegisterGroup) -> usize {
    g.subgroups.iter().map(|s| 1 + nesting(s)).max().unwrap_or(0)
}

#[test]
fn group_without_references_is_unchanged() {
    let mut templates = NameMap::new();
    let mut g = group("G", vec![register("A", 0x105, 5), register("B", 0x107, 7)], vec![]);
    build_register_group_hierarchy(&mut g, &mut templates, 0x100, 0).ok().unwrap();
    assert!(g.subgroups.is_empty());
    assert_eq!(g.registers.get("A").unwrap().address, 0x100 + 5);
    assert_eq!(g.registers.get("B").unwrap().address, 0x100 + 7);
}

#[test]
fn references_instantiate_templates() {
    let mut templates = NameMap::new();
    templates.insert("EP".to_string(), group("EP", vec![register("STATUS", 0x100, 1)], vec![]));
    let mut root = group(
        "USB",
        vec![],
        vec![reference("EP0", "EP", Some(0x10)), reference("EP1", "EP", Some(0x20)), reference("X", "NONE", None)],
    );
    build_register_group_hierarchy(&mut root, &mut templates, 0x100, 0).ok().unwrap();
    assert_eq!(root.subgroups.len(), 2);
    assert!(root.references.is_empty());
    assert_eq!(root.subgroups[0].name, "EP0");
    assert_eq!(root.subgroups[0].registers.get("STATUS").unwrap().address, 0x111);
    assert_eq!(root.subgroups[1].name, "EP1");
    assert_eq!(root.subgroups[1].registers.get("STATUS").unwrap().address, 0x121);
    assert_eq!(root.subgroups[1].offset, 0x20);
}

#[test]
fn self_reference_is_cut_off() {
    let mut templates = NameMap::new();
    templates.insert("LOOP".to_string(), group("LOOP", vec![], vec![reference("AGAIN", "LOOP", None)]));
    let mut root = group("ROOT", vec![], vec![reference("FIRST", "LOOP", None)]);
    let r = build_register_group_hierarchy(&mut root, &mut templates, 0, 0);
    assert!(matches!(r, Err(Error::RecursiveRegisterGroup(_))));
}

#[test]
fn twenty_levels_resolve_and_twenty_one_do_not() {
    let mut templates = chain(20);
    let mut root = group("ROOT", vec![], vec![reference("L1", "T1", None)]);
    build_register_group_hierarchy(&mut root, &mut templates, 0, 0).ok().unwrap();
    assert_eq!(nesting(&root), 20);

    let mut templates = chain(21);
    let mut root = group("ROOT", vec![], vec![reference("L1", "T1", None)]);
    let r = build_register_group_hierarchy(&mut root, &mut templates, 0, 0);
    assert!(matches!(r, Err(Error::RecursiveRegisterGroup(_))));
    assert_eq!(RecursiveRegisterGroupError::new("T21".to_string()).group_name, "T21");
}

#[test]
fn offset_overflow_fails() {
    let mut templates = NameMap::new();
    templates.insert("T".to_string(), group("T", vec![register("R", 0, 4)], vec![]));
    let mut root = group("ROOT", vec![], vec![reference("S", "T", Some(usize::MAX - 1))]);
    let r = build_register_group_hierarchy(&mut root, &mut templates, 0, 0);
    assert!(matches!(r, Err(Error::AddressOverflow(_))));
}

#[test]
fn normalization_is_idempotent() {
    let mut p = Peripheral {
        name: "P".to_string(),
        name_in_module: "P".to_string(),
        description: None,
        address: 0x20,
        register_group: group("P", vec![register("A", 0x25, 5), register("B", 0x27, 7)], vec![]),
    };
    normalize_base_address(&mut p);
    assert_eq!(p.address, 0x25);
    assert_eq!(p.register_group.registers.get("A").unwrap().offset, 0);
    assert_eq!(p.register_group.registers.get("B").unwrap().offset, 2);
    assert_eq!(p.register_group.registers.get("B").unwrap().address, 0x27);
    normalize_base_address(&mut p);
    assert_eq!(p.address, 0x25);
    assert_eq!(p.register_group.registers.get("A").unwrap().offset, 0);
    assert_eq!(p.register_group.registers.get("B").unwrap().offset, 2);
}

#[test]
fn common_prefix() {
    assert_eq!(longest_common_prefix(&["TCA_CTRLA", "TCA_CTRLB"]), "TCA_CTRL");
    assert_eq!(longest_common_prefix(&["AB", "AB"]), "A");
    assert_eq!(longest_common_prefix(&["X", "Y"]), "");
    assert_eq!(longest_common_prefix(&[]), "");
}

fn chip_with(peripherals: Vec<Peripheral>) -> Chip {
    let mut map = NameMap::new();
    for p in peripherals {
        map.insert(p.name.clone(), p);
    }
    Chip {
        name: "C".to_string(),
        architecture: "AVR8".to_string(),
        family: "F".to_string(),
        series: None,
        description: None,
        vendor: None,
        version: None,
        peripherals: map,
        interrupts: NameMap::new(),
    }
}

fn peripheral(name: &str, registers: Vec<Register>) -> Peripheral {
    Peripheral {
        name: name.to_string(),
        name_in_module: name.to_string(),
        description: None,
        address: 0,
        register_group: group(name, registers, vec![]),
    }
}

#[test]
fn register_prefix_removed() {
    let mut chip = chip_with(vec![
        peripheral("TCA", vec![register("TCA_CTRLA", 0, 0), register("TCA_CTRLB", 1, 1), register("TCA_INTFLAGS", 2, 2)]),
        peripheral("ONE", vec![register("ONE_A", 0, 0)]),
    ]);
    remove_register_common_prefix(&mut chip).ok().unwrap();
    let tca = chip.peripherals.get("TCA").unwrap();
    assert_eq!(tca.register_group.registers.get("TCA_CTRLA").unwrap().name, "CTRLA");
    assert_eq!(tca.register_group.registers.get("TCA_INTFLAGS").unwrap().name, "INTFLAGS");
    let one = chip.peripherals.get("ONE").unwrap();
    let mut shared_c = chip_with(vec![peripheral(
        "TCB",
        vec![register("TCB_CNT", 0, 0), register("TCB_CTRLA", 1, 1)],
    )]);
    remove_register_common_prefix(&mut shared_c).ok().unwrap();
    let tcb = shared_c.peripherals.get("TCB").unwrap();
    assert_eq!(tcb.register_group.registers.get("TCB_CNT").unwrap().name, "TCB_CNT");
    assert_eq!(one.register_group.registers.get("ONE_A").unwrap().name, "ONE_A");
}

#[test]
fn cpu_registers_removed() {
    let mut chip = chip_with(vec![
        peripheral("CPU", vec![register("SREG", 0x3f, 0x3f), register("SP", 0x3d, 0x3d), register("CCP", 0x34, 0x34)]),
        peripheral("ADC", vec![register("SREG", 0x10, 0)]),
    ]);
    remove_unsafe_cpu_regs(&mut chip, &el("avr-tools-device-file", &[], vec![])).ok().unwrap();
    let cpu = chip.peripherals.get("CPU").unwrap();
    assert!(cpu.register_group.registers.get("SREG").is_none());
    assert!(cpu.register_group.registers.get("SP").is_none());
    assert!(cpu.register_group.registers.get("CCP").is_some());
    assert!(chip.peripherals.get("ADC").unwrap().register_group.registers.get("SREG").is_some());
}

#[test]
fn ports_renamed() {
    let mut chip = chip_with(vec![peripheral("PORTB", vec![]), peripheral("PORTMUX", vec![])]);
    port_rename_snake_case(&mut chip).ok().unwrap();
    assert_eq!(chip.peripherals.get("PORT_B").unwrap().name, "PORT_B");
    assert!(chip.peripherals.get("PORTB").is_none());
    assert!(chip.peripherals.get("PORTMUX").is_some());
    port_rename_snake_case(&mut chip).ok().unwrap();
    assert_eq!(chip.peripherals.len(), 2);
    assert_eq!(chip.peripherals.get("PORT_B").unwrap().name, "PORT_B");
    assert_eq!(chip.name, "C");
}

fn port_tree() -> Element {
    el(
        "avr-tools-device-file",
        &[],
        vec![el(
            "devices",
            &[],
            vec![el(
                "device",
                &[],
                vec![el(
                    "peripherals",
                    &[],
                    vec![el(
                        "module",
                        &[("name", "PORT")],
                        vec![el(
                            "instance",
                            &[("name", "PORTB")],
                            vec![el(
                                "signals",
                                &[],
                                vec![
                                    el("signal", &[("group", "P"), ("index", "0")], vec![]),
                                    el("signal", &[("group", "P"), ("index", "1")], vec![]),
                                ],
                            )],
                        )],
                    )],
                )],
            )],
        )],
    )
}

#[test]
fn port_pins_become_fields() {
    let mut chip = chip_with(vec![peripheral(
        "PORTB",
        vec![register("PORTB", 0x25, 0), register("DDRB", 0x24, 0), register("PINX", 0x23, 0), register("OUT", 0x22, 0)],
    )]);
    signals_to_port_fields(&mut chip, &port_tree()).ok().unwrap();
    let regs = &chip.peripherals.get("PORTB").unwrap().register_group.registers;
    let portb = regs.get("PORTB").unwrap();
    assert_eq!(portb.fields.len(), 2);
    let pb1 = portb.fields.get("PB1").unwrap();
    assert_eq!(pb1.range, (1, 1));
    assert_eq!(pb1.description.as_deref(), Some("Pin B1"));
    assert!(matches!(portb.restriction, ValueRestriction::Unsafe));
    assert_eq!(regs.get("DDRB").unwrap().fields.len(), 2);
    assert_eq!(regs.get("OUT").unwrap().fields.len(), 2);
    assert_eq!(regs.get("PINX").unwrap().fields.len(), 0);

    let mut other = chip_with(vec![peripheral("PORTC", vec![register("PORTC", 0x28, 0)])]);
    assert!(signals_to_port_fields(&mut other, &port_tree()).is_err());
    assert_eq!(other.peripherals.get("PORTC").unwrap().register_group.registers.get("PORTC").unwrap().fields.len(), 0);
}

fn device_tree(devices: usize) -> Element {
    let device = el(
        "device",
        &[("name", "ATtest"), ("architecture", "AVR8"), ("family", "megaAVR")],
        vec![
            el(
                "peripherals",
                &[],
                vec![el(
                    "module",
                    &[("name", "CPU")],
                    vec![el(
                        "instance",
                        &[("name", "CPU"), ("caption", "CPU Registers")],
                        vec![el("register-group", &[("name", "CPU"), ("name-in-module", "CPU"), ("offset", "0x00")], vec![])],
                    )],
                )],
            ),
            el(
                "interrupts",
                &[],
                vec![
                    el("interrupt", &[("index", "0"), ("name", "RESET")], vec![]),
                    el("interrupt", &[("index", "5"), ("name", "UART0_RX")], vec![]),
                    el("interrupt", &[("index", "5"), ("name", "UART0_TX")], vec![]),
                ],
            ),
        ],
    );
    let module = el(
        "module",
        &[("name", "CPU")],
        vec![el(
            "register-group",
            &[("name", "CPU")],
            vec![
                el("register", &[("name", "SREG"), ("offset", "0x5F"), ("size", "1")], vec![]),
                el("register", &[("name", "SPL"), ("offset", "0x5D"), ("size", "1")], vec![]),
                el("register", &[("name", "SPH"), ("offset", "0x5E"), ("size", "1")], vec![]),
                el(
                    "register",
                    &[("name", "CCP"), ("offset", "0x54"), ("size", "1")],
                    vec![el("bitfield", &[("name", "CCP"), ("mask", "0xFF")], vec![])],
                ),
            ],
        )],
    );
    let mut devs = vec![device];
    for _ in 1..devices {
        devs.push(el("device", &[], vec![]));
    }
    el("avr-tools-device-file", &[], vec![el("devices", &[], devs), el("modules", &[], vec![module])])
}

#[test]
fn whole_description() {
    let mut warnings = Vec::new();
    let chip = atdf::parse(&device_tree(1), &vec![], &mut warnings).ok().unwrap();
    assert_eq!(chip.name, "ATtest");
    assert_eq!(chip.architecture, "AVR8");
    assert_eq!(chip.series, None);
    let cpu = chip.peripherals.get("CPU").unwrap();
    assert_eq!(cpu.description.as_deref(), Some("CPU Registers"));
    assert_eq!(cpu.address, 0x54);
    let regs = &cpu.register_group.registers;
    assert!(regs.get("SREG").is_none());
    assert_eq!(regs.get("SPL").unwrap().address, 0x5D);
    assert_eq!(regs.get("SPL").unwrap().offset, 0x5D - 0x54);
    assert!(matches!(regs.get("CCP").unwrap().restriction, ValueRestriction::Unsafe));
    assert_eq!(chip.interrupts.len(), 2);
    assert_eq!(chip.interrupts.get("UART0_RX_TX").unwrap().index, 5);
    assert!(warnings.iter().any(|w| matches!(w, Warning::PortFieldsSkipped)));
}

#[test]
fn interrupt_name_clash_is_reported() {
    let mut tree = device_tree(1);
    let ints = &mut tree.children[0].children[0].children[1];
    ints.children.push(el("interrupt", &[("index", "7"), ("name", "RESET")], vec![]));
    let mut warnings = Vec::new();
    assert!(matches!(atdf::parse(&tree, &vec![], &mut warnings), Err(Error::InterruptNameClash(_))));
}

#[test]
fn more_than_one_device_is_unsupported() {
    let mut warnings = Vec::new();
    assert!(matches!(atdf::parse(&device_tree(2), &vec![], &mut warnings), Err(Error::Unsupported(_))));
}

#[test]
fn prefix_patch_on_request() {
    assert!(atdf::patch_enabled(&vec!["remove_register_common_prefix".to_string()], "remove_register_common_prefix"));
    assert!(!atdf::patch_enabled(&vec![], "remove_register_common_prefix"));
}
