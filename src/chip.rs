//! The normalized register map of a chip.
use vstd::prelude::*;
use crate::name_map::{Duplicate, NameMap};

verus! {

/// Copies an optional string.
pub fn copy_opt(o: &Option<String>) -> (r: Option<String>)
    ensures
        r == *o,
{
    match o {
        Some(s) => Some(s.clone()),
        None => None,
    }
}

/// How software may access a register or a field.
#[derive(Debug, Clone, Copy, PartialEq, Eq, Structural)]
pub enum AccessMode {
    NoAccess,
    ReadOnly,
    WriteOnly,
    ReadWrite,
}

/// One named value of an enumeration.
#[derive(Debug)]
pub struct EnumeratedValue {
    pub name: String,
    pub description: Option<String>,
    pub value: usize,
}

impl View for EnumeratedValue {
    type V = EnumeratedValue;

    open spec fn view(&self) -> EnumeratedValue {
        *self
    }
}

impl Duplicate for EnumeratedValue {
    fn duplicate(&self) -> (r: Self) {
        EnumeratedValue {
            name: self.name.clone(),
            description: copy_opt(&self.description),
            value: self.value,
        }
    }
}

/// Which values may be written to a register or a field.
#[derive(Debug)]
pub enum ValueRestriction {
    /// No constraint can be assumed.
    Unsafe,
    /// Every value of the bit width.
    Any,
    /// The values from the first bound to the second.
    Range(u64, u64),
    /// The listed values.
    Enumerated(NameMap<EnumeratedValue>),
}

/// The content of a [`ValueRestriction`].
pub enum RestrictionModel {
    Unsafe,
    Any,
    Range(u64, u64),
    Enumerated(Seq<(Seq<char>, EnumeratedValue)>),
}

impl View for ValueRestriction {
    type V = RestrictionModel;

    open spec fn view(&self) -> RestrictionModel {
        match self {
            ValueRestriction::Unsafe => RestrictionModel::Unsafe,
            ValueRestriction::Any => RestrictionModel::Any,
            ValueRestriction::Range(lo, hi) => RestrictionModel::Range(*lo, *hi),
            ValueRestriction::Enumerated(m) => RestrictionModel::Enumerated(m@),
        }
    }
}

impl Duplicate for ValueRestriction {
    fn duplicate(&self) -> (r: Self) {
        match self {
            ValueRestriction::Unsafe => ValueRestriction::Unsafe,
            ValueRestriction::Any => ValueRestriction::Any,
            ValueRestriction::Range(lo, hi) => ValueRestriction::Range(*lo, *hi),
            ValueRestriction::Enumerated(m) => ValueRestriction::Enumerated(m.duplicate()),
        }
    }
}

/// A bit field of a register.
#[derive(Debug)]
pub struct Field {
    pub name: String,
    pub description: Option<String>,
    /// Lowest and highest bit, both included.
    pub range: (usize, usize),
    pub access: AccessMode,
    pub restriction: ValueRestriction,
}

/// The content of a [`Field`].
pub struct FieldModel {
    pub name: String,
    pub description: Option<String>,
    pub range: (usize, usize),
    pub access: AccessMode,
    pub restriction: RestrictionModel,
}

impl View for Field {
    type V = FieldModel;

    open spec fn view(&self) -> FieldModel {
        FieldModel {
            name: self.name,
            description: self.description,
            range: self.range,
            access: self.access,
            restriction: self.restriction@,
        }
    }
}

impl Duplicate for Field {
    fn duplicate(&self) -> (r: Self) {
        Field {
            name: self.name.clone(),
            description: copy_opt(&self.description),
            range: self.range,
            access: self.access,
            restriction: self.restriction.duplicate(),
        }
    }
}

impl Field {
    /// The number of bits of the field.
    pub fn width(&self) -> (r: usize)
        requires
            self.range.0 <= self.range.1,
            self.range.1 - self.range.0 < usize::MAX,
        ensures
            r == self.range.1 - self.range.0 + 1,
    {
        self.range.1 - self.range.0 + 1
    }
}

/// A register: where it lies, how wide it is, and its fields.
#[derive(Debug)]
pub struct Register {
    pub name: String,
    pub description: Option<String>,
    /// The alternate view of the register that this one belongs to, if any.
    pub mode: Option<String>,
    /// The absolute address of the register.
    pub address: usize,
    /// The offset of the register within its group.
    pub offset: usize,
    /// The size in bytes.
    pub size: usize,
    pub access: AccessMode,
    pub restriction: ValueRestriction,
    pub fields: NameMap<Field>,
}

/// The content of a [`Register`].
pub struct RegisterModel {
    pub name: String,
    pub description: Option<String>,
    pub mode: Option<String>,
    pub address: usize,
    pub offset: usize,
    pub size: usize,
    pub access: AccessMode,
    pub restriction: RestrictionModel,
    pub fields: Seq<(Seq<char>, FieldModel)>,
}

impl View for Register {
    type V = RegisterModel;

    open spec fn view(&self) -> RegisterModel {
        RegisterModel {
            name: self.name,
            description: self.description,
            mode: self.mode,
            address: self.address,
            offset: self.offset,
            size: self.size,
            access: self.access,
            restriction: self.restriction@,
            fields: self.fields@,
        }
    }
}

impl Duplicate for Register {
    fn duplicate(&self) -> (r: Self) {
        Register {
            name: self.name.clone(),
            description: copy_opt(&self.description),
            mode: copy_opt(&self.mode),
            address: self.address,
            offset: self.offset,
            size: self.size,
            access: self.access,
            restriction: self.restriction.duplicate(),
            fields: self.fields.duplicate(),
        }
    }
}

/// A reference from a register group to a register-group template.
#[derive(Debug)]
pub struct RegisterGroupReference {
    /// The name that the instantiated group takes.
    pub name: String,
    /// The template to instantiate.
    pub name_in_module: Option<String>,
    /// Where the instantiated group lies, relative to the referencing one.
    pub offset: Option<usize>,
}

impl View for RegisterGroupReference {
    type V = RegisterGroupReference;

    open spec fn view(&self) -> RegisterGroupReference {
        *self
    }
}

impl Duplicate for RegisterGroupReference {
    fn duplicate(&self) -> (r: Self) {
        RegisterGroupReference {
            name: self.name.clone(),
            name_in_module: copy_opt(&self.name_in_module),
            offset: self.offset,
        }
    }
}

/// An item of a register group as a description declares it.
#[derive(Debug)]
pub struct RegisterGroupItem {
    pub name: String,
    pub name_in_module: Option<String>,
    pub description: Option<String>,
    pub size: Option<usize>,
    pub offset: Option<usize>,
    pub count: Option<usize>,
}

/// A named collection of registers and of nested groups.
#[derive(Debug)]
pub struct RegisterGroup {
    pub name: String,
    pub description: Option<String>,
    /// Offset relative to the enclosing group.
    pub offset: usize,
    /// Whether the subgroups are alternative views of the same memory.
    pub is_union: bool,
    /// References to templates that are still to be instantiated.
    pub references: Vec<RegisterGroupReference>,
    pub subgroups: Vec<RegisterGroup>,
    pub registers: NameMap<Register>,
}

/// The content of a [`RegisterGroup`].
pub struct RegisterGroupModel {
    pub name: String,
    pub description: Option<String>,
    pub offset: usize,
    pub is_union: bool,
    pub references: Seq<RegisterGroupReference>,
    pub subgroups: Seq<RegisterGroupModel>,
    pub registers: Seq<(Seq<char>, RegisterModel)>,
}

impl RegisterGroup {
    pub open spec fn model(&self) -> RegisterGroupModel
        decreases self,
    {
        RegisterGroupModel {
            name: self.name,
            description: self.description,
            offset: self.offset,
            is_union: self.is_union,
            references: self.references@,
            subgroups: Seq::new(
                self.subgroups@.len(),
                |i: int|
                    if 0 <= i < self.subgroups@.len() {
                        self.subgroups@[i].model()
                    } else {
                        arbitrary()
                    },
            ),
            registers: self.registers@,
        }
    }
}

impl View for RegisterGroup {
    type V = RegisterGroupModel;

    open spec fn view(&self) -> RegisterGroupModel {
        self.model()
    }
}

/// The registers of a group's own entries, in order.
pub open spec fn own_registers(g: RegisterGroupModel) -> Seq<RegisterModel> {
    g.registers.map_values(|e: (Seq<char>, RegisterModel)| e.1)
}

/// Every register under a group: its own, then those of each subgroup in turn.
pub open spec fn all_registers(g: RegisterGroupModel) -> Seq<RegisterModel>
    decreases g, 1nat,
{
    own_registers(g) + subgroup_registers(g).flatten()
}

/// For each subgroup of a group, every register under it.
pub open spec fn subgroup_registers(g: RegisterGroupModel) -> Seq<Seq<RegisterModel>>
    decreases g, 0nat,
{
    Seq::new(
        g.subgroups.len(),
        |i: int|
            if 0 <= i < g.subgroups.len() {
                all_registers(g.subgroups[i])
            } else {
                Seq::empty()
            },
    )
}

/// The contents of a list of registers.
pub open spec fn register_models(v: Seq<&Register>) -> Seq<RegisterModel> {
    v.map_values(|r: &Register| r@)
}

impl RegisterGroup {
    /// Every register under this group: its own, then those of each subgroup
    /// in turn.
    pub fn get_all_registers(&self) -> (r: Vec<&Register>)
        ensures
            register_models(r@) == all_registers(self@),
        decreases self,
    {
        let mut registers: Vec<&Register> = Vec::new();
        let mut i: usize = 0;
        while i < self.registers.len()
            invariant
                i <= self.registers@.len(),
                registers@.len() == i,
                register_models(registers@) == own_registers(self@).subrange(0, i as int),
            decreases self.registers@.len() - i,
        {
            let reg = self.registers.value(i);
            let ghost before = registers@;
            registers.push(reg);
            proof {
                assert(registers@ == before.push(reg));
                assert(self@.registers == self.registers@);
                assert(self.registers@[i as int].1 == reg@);
                assert(own_registers(self@)[i as int] == reg@);
                assert(register_models(registers@)[i as int] == reg@);
                assert forall|j: int| 0 <= j < i + 1 implies #[trigger] register_models(registers@)[j]
                    == own_registers(self@).subrange(0, i + 1)[j] by {
                    if j < i {
                        assert(register_models(before)[j] == own_registers(self@).subrange(0, i as int)[j]);
                    }
                }
                assert(register_models(registers@) =~= own_registers(self@).subrange(0, i + 1));
            }
            i = i + 1;
        }
        assert(own_registers(self@).subrange(0, i as int) =~= own_registers(self@));
        let ghost parts = subgroup_registers(self@);
        let mut k: usize = 0;
        while k < self.subgroups.len()
            invariant
                k <= self.subgroups@.len(),
                parts.len() == self.subgroups@.len(),
                forall|j: int|
                    0 <= j < parts.len() ==> #[trigger] parts[j] == all_registers(
                        self.subgroups@[j]@,
                    ),
                register_models(registers@) == own_registers(self@) + parts.subrange(
                    0,
                    k as int,
                ).flatten(),
            decreases self.subgroups@.len() - k,
        {
            let sub = self.subgroups[k].get_all_registers();
            let ghost before = registers@;
            let mut j: usize = 0;
            while j < sub.len()
                invariant
                    j <= sub@.len(),
                    registers@.len() == before.len() + j,
                    register_models(registers@) == register_models(before) + register_models(
                        sub@,
                    ).subrange(0, j as int),
                decreases sub@.len() - j,
            {
                let ghost mid = registers@;
                registers.push(sub[j]);
                proof {
                    assert(registers@ == mid.push(sub@[j as int]));
                    assert forall|t: int| 0 <= t < registers@.len() implies #[trigger] register_models(registers@)[t]
                        == (register_models(before) + register_models(sub@).subrange(0, j + 1))[t] by {
                        if t < mid.len() {
                            assert(register_models(mid)[t] == (register_models(before) + register_models(sub@).subrange(0, j as int))[t]);
                        }
                    }
                    assert(register_models(registers@) =~= register_models(before) + register_models(
                        sub@,
                    ).subrange(0, j + 1));
                }
                j = j + 1;
            }
            proof {
                assert(register_models(sub@).subrange(0, j as int) =~= register_models(sub@));
                assert(parts.subrange(0, k + 1) =~= parts.subrange(0, k as int).push(parts[k as int]));
                parts.subrange(0, k as int).lemma_flatten_push(parts[k as int]);
                assert(register_models(registers@) =~= own_registers(self@) + parts.subrange(
                    0,
                    k + 1,
                ).flatten());
            }
            k = k + 1;
        }
        assert(parts.subrange(0, k as int) =~= parts);
        registers
    }
}

impl Duplicate for RegisterGroup {
    fn duplicate(&self) -> (r: Self)
        decreases self,
    {
        let mut references: Vec<RegisterGroupReference> = Vec::new();
        let mut i: usize = 0;
        while i < self.references.len()
            invariant
                i <= self.references@.len(),
                references@.len() == i,
                forall|j: int| 0 <= j < i ==> #[trigger] references@[j] == self.references@[j],
            decreases self.references@.len() - i,
        {
            references.push(self.references[i].duplicate());
            i = i + 1;
        }
        let mut subgroups: Vec<RegisterGroup> = Vec::new();
        let mut i: usize = 0;
        while i < self.subgroups.len()
            invariant
                i <= self.subgroups@.len(),
                subgroups@.len() == i,
                forall|j: int|
                    0 <= j < i ==> #[trigger] subgroups@[j].model() == self.subgroups@[j].model(),
            decreases self.subgroups@.len() - i,
        {
            subgroups.push(self.subgroups[i].duplicate());
            i = i + 1;
        }
        let r = RegisterGroup {
            name: self.name.clone(),
            description: copy_opt(&self.description),
            offset: self.offset,
            is_union: self.is_union,
            references,
            subgroups,
            registers: self.registers.duplicate(),
        };
        assert forall|j: int| 0 <= j < r.subgroups@.len() implies r.model().subgroups[j]
            == self.model().subgroups[j] by {
            assert(r.subgroups@[j].model() == self.subgroups@[j].model());
        }
        assert(r.model().subgroups =~= self.model().subgroups);
        assert(r.model().references =~= self.model().references);
        r
    }
}

/// An interrupt: its vector position and name.
#[derive(Debug)]
pub struct Interrupt {
    pub name: String,
    pub description: Option<String>,
    pub index: usize,
}

impl View for Interrupt {
    type V = Interrupt;

    open spec fn view(&self) -> Interrupt {
        *self
    }
}

impl Duplicate for Interrupt {
    fn duplicate(&self) -> (r: Self) {
        Interrupt {
            name: self.name.clone(),
            description: copy_opt(&self.description),
            index: self.index,
        }
    }
}

/// One placement of a module in the chip's address space.
#[derive(Debug)]
pub struct Peripheral {
    pub name: String,
    /// The module whose templates shape the peripheral.
    pub name_in_module: String,
    pub description: Option<String>,
    /// The base address: the lowest address of any of its registers.
    pub address: usize,
    pub register_group: RegisterGroup,
}

/// The content of a [`Peripheral`].
pub struct PeripheralModel {
    pub name: String,
    pub name_in_module: String,
    pub description: Option<String>,
    pub address: usize,
    pub register_group: RegisterGroupModel,
}

impl View for Peripheral {
    type V = PeripheralModel;

    open spec fn view(&self) -> PeripheralModel {
        PeripheralModel {
            name: self.name,
            name_in_module: self.name_in_module,
            description: self.description,
            address: self.address,
            register_group: self.register_group@,
        }
    }
}

impl Duplicate for Peripheral {
    fn duplicate(&self) -> (r: Self) {
        Peripheral {
            name: self.name.clone(),
            name_in_module: self.name_in_module.clone(),
            description: copy_opt(&self.description),
            address: self.address,
            register_group: self.register_group.duplicate(),
        }
    }
}

/// A chip: its identity, its peripherals and its interrupts.
#[derive(Debug)]
pub struct Chip {
    pub name: String,
    pub architecture: String,
    pub family: String,
    pub series: Option<String>,
    pub description: Option<String>,
    pub vendor: Option<String>,
    pub version: Option<String>,
    pub peripherals: NameMap<Peripheral>,
    pub interrupts: NameMap<Interrupt>,
}

} // verus!
