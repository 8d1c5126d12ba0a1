use atdf2svd::chip::{AccessMode, Peripheral, Register, RegisterGroup, ValueRestriction};
use atdf2svd::name_map::NameMap;
use atdf2svd::svd::{
    architecture_to_name, ascending_order, coalesce_blocks, create_address_blocks, has_registers, layout_registers,
    write_constraint, AddressBlock, WriteConstraint,
};

fn register(name: &str, address: usize, size: usize) -> Register {
    Register {
        name: name.to_string(),
        description: None,
        mode: None,
        address,
        offset: address,
        size,
        access: AccessMode::ReadWrite,
        restriction: ValueRestriction::Any,
        fields: NameMap::new(),
    }
}

fn group(name: &str, registers: Vec<Register>) -> RegisterGroup {
    let mut map = NameMap::new();
    for r in registers {
        map.insert(r.name.clone(), r);
    }
    RegisterGroup {
        name: name.to_string(),
        description: None,
        offset: 0,
        is_union: false,
        references: vec![],
        subgroups: vec![],
        registers: map,
    }
}

#[test]
fn contiguous_registers_share_a_block() {
    let blocks = coalesce_blocks(&vec![(0, 1), (1, 1), (4, 1)], 0);
    assert_eq!(
        blocks,
        vec![AddressBlock { offset: 0, size: 2 }, AddressBlock { offset: 4, size: 1 }]
    );
    // Coalescing the blocks again changes nothing.
    let again: Vec<(usize, usize)> = blocks.iter().map(|b| (b.offset, b.size)).collect();
    assert_eq!(coalesce_blocks(&again, 0), blocks);
    assert_eq!(coalesce_blocks(&vec![], 0), vec![]);
}

#[test]
fn address_blocks_ignore_register_order() {
    // Names order the registers differently from their addresses.
    let p = Peripheral {
        name: "P".to_string(),
        name_in_module: "P".to_string(),
        description: None,
        address: 0x20,
        register_group: group("P", vec![register("A", 0x24, 1), register("B", 0x21, 1), register("C", 0x20, 1)]),
    };
    let blocks = create_address_blocks(&p).unwrap();
    assert_eq!(
        blocks,
        vec![AddressBlock { offset: 0, size: 2 }, AddressBlock { offset: 4, size: 1 }]
    );
    assert!(has_registers(&p));
}

#[test]
fn union_footprint_uses_first_alternative() {
    let mut root = group("U", vec![]);
    root.is_union = true;
    root.subgroups.push(group("A", vec![register("X", 0x10, 2)]));
    root.subgroups.push(group("B", vec![register("Y", 0x10, 4)]));
    let p = Peripheral {
        name: "U".to_string(),
        name_in_module: "U".to_string(),
        description: None,
        address: 0x10,
        register_group: root,
    };
    assert_eq!(create_address_blocks(&p).unwrap(), vec![AddressBlock { offset: 0, size: 2 }]);
}

#[test]
fn register_below_base_has_no_blocks() {
    let p = Peripheral {
        name: "P".to_string(),
        name_in_module: "P".to_string(),
        description: None,
        address: 0x20,
        register_group: group("P", vec![register("A", 0x10, 1)]),
    };
    assert!(create_address_blocks(&p).is_none());
    let empty = Peripheral { register_group: group("E", vec![]), ..p };
    assert!(!has_registers(&empty));
}

#[test]
fn cpu_names() {
    assert_eq!(architecture_to_name("CORTEX-M0PLUS"), "CM0PLUS");
    assert_eq!(architecture_to_name("CORTEX-A5"), "CA5");
    assert_eq!(architecture_to_name("AVR8"), "other");
    assert_eq!(architecture_to_name("CORTEX"), "other");
}

#[test]
fn write_constraints() {
    assert_eq!(write_constraint(&ValueRestriction::Any, 8), Some(WriteConstraint::Range(0, 255)));
    assert_eq!(write_constraint(&ValueRestriction::Any, 1), None);
    assert_eq!(write_constraint(&ValueRestriction::Any, 64), Some(WriteConstraint::Range(0, u64::MAX)));
    assert_eq!(write_constraint(&ValueRestriction::Range(2, 9), 8), Some(WriteConstraint::Range(2, 9)));
    assert_eq!(write_constraint(&ValueRestriction::Unsafe, 8), None);
    assert_eq!(
        write_constraint(&ValueRestriction::Enumerated(NameMap::new()), 8),
        Some(WriteConstraint::UseEnumeratedValues)
    );
}

#[test]
fn stable_ascending_order() {
    assert_eq!(ascending_order(&vec![3, 1, 2, 1]), vec![1, 3, 2, 0]);
    assert_eq!(ascending_order(&vec![]), Vec::<usize>::new());
}

#[test]
fn overlapping_registers_share_a_block() {
    // Two views of one address, and a register starting inside the block.
    let blocks = coalesce_blocks(&vec![(0, 2), (0, 1), (1, 3), (8, 1)], 0);
    assert_eq!(
        blocks,
        vec![AddressBlock { offset: 0, size: 4 }, AddressBlock { offset: 8, size: 1 }]
    );
}

#[test]
fn union_layout_has_one_cluster_per_alternative() {
    let mut root = group("U", vec![register("CTRL", 0x10, 1)]);
    root.is_union = true;
    root.subgroups.push(group("A", vec![register("X", 0x11, 2)]));
    root.subgroups.push(group("B", vec![register("Y", 0x11, 4), register("Z", 0x15, 1)]));
    let layout = layout_registers(&root);
    assert_eq!(layout.len(), 3);
    assert_eq!(layout[0].0, None);
    assert_eq!(layout[0].1.len(), 1);
    assert_eq!(layout[1].0, Some(0));
    assert_eq!(layout[2].0, Some(1));
    assert_eq!(layout[2].1.len(), 2);
    root.is_union = false;
    let flat = layout_registers(&root);
    assert_eq!(flat.len(), 1);
    assert_eq!(flat[0].1.len(), 4);
}
