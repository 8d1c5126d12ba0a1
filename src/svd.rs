//! What the output document needs from a chip: CPU name, memory footprint
//! of each peripheral, write constraints and orderings.
use vstd::prelude::*;
use crate::chip::{all_registers, own_registers, register_models, Peripheral, Register, RegisterGroup, RegisterGroupModel, RegisterModel, RestrictionModel, ValueRestriction};
use crate::text;

verus! {

/// The CPU name for an architecture: `CORTEX-` becomes `C`; any other
/// architecture is `other`.
pub open spec fn cpu_name(architecture: Seq<char>) -> Seq<char> {
    if "CORTEX-"@.len() <= architecture.len() && architecture.subrange(0, 7) == "CORTEX-"@ {
        "C"@ + architecture.skip(7)
    } else {
        "other"@
    }
}

/// The CPU name for an architecture (see [`cpu_name`]).
pub fn architecture_to_name(architecture: &str) -> (r: String)
    ensures
        r@ == cpu_name(architecture@),
{
    proof {
        reveal_strlit("CORTEX-");
    }
    if text::starts_with(architecture, "CORTEX-") {
        let n = architecture.unicode_len();
        let suffix = architecture.substring_char(7, n);
        assert(suffix@ =~= architecture@.skip(7));
        text::join("C", suffix)
    } else {
        text::owned("other")
    }
}

/// A contiguous range of memory that a peripheral's registers occupy: its
/// offset from the peripheral's base address and its size in bytes.
#[derive(Debug, Clone, Copy, PartialEq, Eq, Structural)]
pub struct AddressBlock {
    pub offset: usize,
    pub size: usize,
}

/// Whether `m` is among `order`.
pub open spec fn appears(order: Seq<usize>, m: usize) -> bool {
    exists|i: int| 0 <= i < order.len() && #[trigger] order[i] == m
}

/// Whether `order` lists each position of `keys` once, in ascending order of
/// key, equal keys in the order in which they are listed.
pub open spec fn is_ascending_order(keys: Seq<usize>, order: Seq<usize>) -> bool {
    &&& order.len() == keys.len()
    &&& forall|i: int| 0 <= i < order.len() ==> (#[trigger] order[i]) < keys.len()
    &&& forall|m: usize| m < keys.len() ==> #[trigger] appears(order, m)
    &&& forall|i: int, j: int| 0 <= i < j < order.len() ==> #[trigger] order[i] != #[trigger] order[j]
    &&& forall|i: int, j: int|
        0 <= i < j < order.len() ==> keys[#[trigger] order[i] as int] < keys[#[trigger] order[j] as int]
            || (keys[order[i] as int] == keys[order[j] as int] && order[i] < order[j])
}

/// The positions of `keys` in ascending order of key, equal keys in the
/// order in which they are listed.
pub fn ascending_order(keys: &Vec<usize>) -> (r: Vec<usize>)
    ensures
        is_ascending_order(keys@, r@),
{
    let mut order: Vec<usize> = Vec::new();
    let mut k: usize = 0;
    while k < keys.len()
        invariant
            k <= keys@.len(),
            order@.len() == k,
            forall|i: int| 0 <= i < order@.len() ==> (#[trigger] order@[i]) < k,
            forall|m: usize| m < k ==> #[trigger] appears(order@, m),
            forall|i: int, j: int| 0 <= i < j < order@.len() ==> #[trigger] order@[i] != #[trigger] order@[j],
            forall|i: int, j: int|
                0 <= i < j < order@.len() ==> keys@[#[trigger] order@[i] as int] < keys@[#[trigger] order@[j] as int]
                    || (keys@[order@[i] as int] == keys@[order@[j] as int] && order@[i] < order@[j]),
        decreases keys@.len() - k,
    {
        let key = keys[k];
        let mut p: usize = 0;
        while p < order.len() && keys[order[p]] <= key
            invariant
                p <= order@.len(),
                forall|i: int| 0 <= i < order@.len() ==> (#[trigger] order@[i]) < k,
                k < keys@.len(),
                key == keys@[k as int],
                forall|i: int| 0 <= i < p ==> keys@[#[trigger] order@[i] as int] <= key,
            decreases order@.len() - p,
        {
            p = p + 1;
        }
        let ghost before = order@;
        proof {
            if p < before.len() {
                assert forall|i: int| p <= i < before.len() implies keys@[#[trigger] before[i] as int] > key by {
                    if i > p {
                        assert(keys@[before[p as int] as int] <= keys@[before[i] as int]);
                    }
                }
            }
        }
        order.insert(p, k);
        proof {
            assert forall|m: usize| m < k + 1 implies #[trigger] appears(order@, m) by {
                if m == k {
                    assert(order@[p as int] == m);
                } else {
                    assert(appears(before, m));
                    let i0 = choose|i: int| 0 <= i < before.len() && #[trigger] before[i] == m;
                    if i0 < p {
                        assert(order@[i0] == m);
                    } else {
                        assert(order@[i0 + 1] == m);
                    }
                }
            }
            assert forall|i: int, j: int| 0 <= i < j < order@.len() implies keys@[#[trigger] order@[i] as int] < keys@[#[trigger] order@[j] as int]
                || (keys@[order@[i] as int] == keys@[order@[j] as int] && order@[i] < order@[j]) by {
                if i < p && j == p {
                } else if i == p && j > p {
                    assert(order@[j] == before[j - 1]);
                } else {
                    let i0 = if i < p { i } else { i - 1 };
                    let j0 = if j < p { j } else { j - 1 };
                    assert(order@[i] == before[i0]);
                    assert(order@[j] == before[j0]);
                }
            }
            assert forall|i: int, j: int| 0 <= i < j < order@.len() implies #[trigger] order@[i] != #[trigger] order@[j] by {
                if i != p && j != p {
                    let i0 = if i < p { i } else { i - 1 };
                    let j0 = if j < p { j } else { j - 1 };
                    assert(order@[i] == before[i0]);
                    assert(order@[j] == before[j0]);
                } else if i == p {
                    assert(order@[j] == before[j - 1]);
                } else {
                    assert(order@[i] == before[i]);
                }
            }
        }
        k = k + 1;
    }
    order
}

/// The end of the block `cur` once the register `r` joins it.
pub open spec fn joined_size(cur: (int, int), r: (int, int)) -> int {
    if r.0 + r.1 > cur.0 + cur.1 {
        r.0 + r.1 - cur.0
    } else {
        cur.1
    }
}

/// Whether the register `r` starts inside the block `cur` or where it ends.
pub open spec fn joins(cur: (int, int), r: (int, int)) -> bool {
    cur.0 <= r.0 && r.0 <= cur.0 + cur.1
}

/// The blocks that `regs`, pairs of address and size, occupy after the block
/// `cur`: a pair that starts inside the current block or where it ends
/// extends it; any other closes it and starts a new block.
pub open spec fn coalesce_from(regs: Seq<(int, int)>, cur: (int, int)) -> Seq<(int, int)>
    decreases regs.len(),
{
    if regs.len() == 0 {
        seq![cur]
    } else if joins(cur, regs[0]) {
        coalesce_from(regs.skip(1), (cur.0, joined_size(cur, regs[0])))
    } else {
        seq![cur] + coalesce_from(regs.skip(1), regs[0])
    }
}

/// The blocks, as pairs of start and size, that the registers `regs`, pairs
/// of address and size taken in order, occupy.
pub open spec fn coalesce(regs: Seq<(int, int)>) -> Seq<(int, int)> {
    if regs.len() == 0 {
        Seq::empty()
    } else {
        coalesce_from(regs, (regs[0].0, 0))
    }
}

/// Whether no size of `s` is negative.
pub open spec fn sizes_nonneg(s: Seq<(int, int)>) -> bool {
    forall|k: int| 0 <= k < s.len() ==> (#[trigger] s[k]).1 >= 0
}

/// Whether no block of `s` would take in the next one.
pub open spec fn separated(s: Seq<(int, int)>) -> bool {
    forall|k: int| 0 <= k < s.len() - 1 ==> !joins(#[trigger] s[k], s[k + 1])
}

proof fn lemma_skip_nonneg(s: Seq<(int, int)>)
    requires
        sizes_nonneg(s),
        s.len() > 0,
    ensures
        sizes_nonneg(s.skip(1)),
{
    assert forall|k: int| 0 <= k < s.skip(1).len() implies (#[trigger] s.skip(1)[k]).1 >= 0 by {
        assert(s.skip(1)[k] == s[k + 1]);
    }
}

proof fn lemma_coalesce_from_separated(regs: Seq<(int, int)>, cur: (int, int))
    requires
        sizes_nonneg(regs),
        cur.1 >= 0,
    ensures
        separated(coalesce_from(regs, cur)),
        sizes_nonneg(coalesce_from(regs, cur)),
        coalesce_from(regs, cur).len() > 0,
        coalesce_from(regs, cur)[0].0 == cur.0,
    decreases regs.len(),
{
    if regs.len() > 0 {
        lemma_skip_nonneg(regs);
        assert(regs[0].1 >= 0);
        if joins(cur, regs[0]) {
            lemma_coalesce_from_separated(regs.skip(1), (cur.0, joined_size(cur, regs[0])));
        } else {
            let rest = coalesce_from(regs.skip(1), regs[0]);
            lemma_coalesce_from_separated(regs.skip(1), regs[0]);
            let out = seq![cur] + rest;
            assert forall|k: int| 0 <= k < out.len() - 1 implies !joins(#[trigger] out[k], out[k + 1]) by {
                if k > 0 {
                    assert(out[k] == rest[k - 1]);
                    assert(out[k + 1] == rest[k]);
                }
            }
            assert forall|k: int| 0 <= k < out.len() implies (#[trigger] out[k]).1 >= 0 by {
                if k > 0 {
                    assert(out[k] == rest[k - 1]);
                }
            }
        }
    }
}

proof fn lemma_coalesce_separated_fixed(s: Seq<(int, int)>)
    requires
        separated(s),
        sizes_nonneg(s),
        s.len() > 0,
    ensures
        coalesce_from(s.skip(1), s[0]) == s,
    decreases s.len(),
{
    if s.len() == 1 {
        assert(s =~= seq![s[0]]);
    } else {
        let t = s.skip(1);
        assert(separated(t)) by {
            assert forall|k: int| 0 <= k < t.len() - 1 implies !joins(#[trigger] t[k], t[k + 1]) by {
                assert(t[k] == s[k + 1]);
                assert(!joins(s[k + 1], s[k + 2]));
            }
        }
        lemma_skip_nonneg(s);
        lemma_coalesce_separated_fixed(t);
        assert(!joins(s[0], t[0]));
        assert(s =~= seq![s[0]] + t);
    }
}

/// Coalescing is idempotent: the blocks that come out, fed in again as
/// registers, give the same blocks.
pub proof fn lemma_coalesce_idempotent(regs: Seq<(int, int)>)
    requires
        sizes_nonneg(regs),
    ensures
        coalesce(coalesce(regs)) == coalesce(regs),
{
    if regs.len() > 0 {
        let out = coalesce(regs);
        lemma_coalesce_from_separated(regs, (regs[0].0, 0));
        lemma_coalesce_separated_fixed(out);
        assert(out[0].1 >= 0);
        assert(joins((out[0].0, 0), out[0]));
        assert(joined_size((out[0].0, 0), out[0]) == out[0].1);
        assert(coalesce_from(out, (out[0].0, 0)) == coalesce_from(out.skip(1), (out[0].0, out[0].1)));
        assert((out[0].0, out[0].1) == out[0]);
    }
}

/// Whether the registers `regs` come in ascending order of address, none of
/// negative size.
pub open spec fn ascending_starts(regs: Seq<(int, int)>) -> bool {
    &&& sizes_nonneg(regs)
    &&& forall|k: int| 0 <= k < regs.len() - 1 ==> (#[trigger] regs[k]).0 <= regs[k + 1].0
}

/// Whether each block of `s` ends strictly before the next one begins.
pub open spec fn strictly_apart(s: Seq<(int, int)>) -> bool {
    forall|k: int| 0 <= k < s.len() - 1 ==> (#[trigger] s[k]).0 + s[k].1 < s[k + 1].0
}

proof fn lemma_coalesce_from_apart(regs: Seq<(int, int)>, cur: (int, int))
    requires
        ascending_starts(regs),
        cur.1 >= 0,
        regs.len() > 0 ==> cur.0 <= regs[0].0,
    ensures
        strictly_apart(coalesce_from(regs, cur)),
        coalesce_from(regs, cur)[0].0 == cur.0,
        sizes_nonneg(coalesce_from(regs, cur)),
    decreases regs.len(),
{
    lemma_coalesce_from_separated(regs, cur);
    if regs.len() > 0 {
        let rest = regs.skip(1);
        lemma_skip_nonneg(regs);
        assert(ascending_starts(rest)) by {
            assert forall|k: int| 0 <= k < rest.len() - 1 implies (#[trigger] rest[k]).0 <= rest[k + 1].0 by {
                assert(rest[k] == regs[k + 1]);
                assert(regs[k + 1].0 <= regs[k + 2].0);
            }
        }
        if rest.len() > 0 {
            assert(regs[0].0 <= regs[1].0);
        }
        assert(regs[0].1 >= 0);
        if joins(cur, regs[0]) {
            lemma_coalesce_from_apart(rest, (cur.0, joined_size(cur, regs[0])));
        } else {
            let tail = coalesce_from(rest, regs[0]);
            lemma_coalesce_from_apart(rest, regs[0]);
            let out = seq![cur] + tail;
            assert(out == coalesce_from(regs, cur));
            assert forall|k: int| 0 <= k < out.len() - 1 implies (#[trigger] out[k]).0 + out[k].1 < out[k + 1].0 by {
                if k > 0 {
                    assert(out[k] == tail[k - 1]);
                    assert(out[k + 1] == tail[k]);
                } else {
                    assert(out[1] == tail[0]);
                }
            }
        }
    }
}

/// Registers in ascending order of address give blocks in ascending order of
/// start, each ending strictly before the next begins: the blocks do not
/// overlap, and none could be merged with the next.
pub proof fn lemma_coalesce_ordered(regs: Seq<(int, int)>)
    requires
        ascending_starts(regs),
    ensures
        strictly_apart(coalesce(regs)),
        sizes_nonneg(coalesce(regs)),
{
    if regs.len() > 0 {
        lemma_coalesce_from_apart(regs, (regs[0].0, 0));
    }
}

/// The blocks that the registers `regs`, pairs of address and size in
/// order, occupy (see [`coalesce`]), with their start given relative to
/// `base`.
pub fn coalesce_blocks(regs: &Vec<(usize, usize)>, base: usize) -> (r: Vec<AddressBlock>)
    requires
        forall|i: int| 0 <= i < regs@.len() ==> base <= (#[trigger] regs@[i]).0 && regs@[i].0 + regs@[i].1 <= usize::MAX,
    ensures
        r@.map_values(|b: AddressBlock| (b.offset + base, b.size as int)) == coalesce(
            regs@.map_values(|p: (usize, usize)| (p.0 as int, p.1 as int)),
        ),
{
    let ghost pairs = regs@.map_values(|p: (usize, usize)| (p.0 as int, p.1 as int));
    let mut blocks: Vec<AddressBlock> = Vec::new();
    if regs.len() == 0 {
        assert(blocks@.map_values(|b: AddressBlock| (b.offset + base, b.size as int)) =~= Seq::<(int, int)>::empty());
        return blocks;
    }
    let mut cur_start: usize = regs[0].0;
    let mut cur_size: usize = 0;
    let mut i: usize = 0;
    assert(pairs.skip(0) =~= pairs);
    while i < regs.len()
        invariant
            i <= regs@.len(),
            regs@.len() > 0,
            pairs == regs@.map_values(|p: (usize, usize)| (p.0 as int, p.1 as int)),
            forall|j: int| 0 <= j < regs@.len() ==> base <= (#[trigger] regs@[j]).0 && regs@[j].0 + regs@[j].1 <= usize::MAX,
            base <= cur_start,
            cur_start + cur_size <= usize::MAX,
            blocks@.map_values(|b: AddressBlock| (b.offset + base, b.size as int)) + coalesce_from(
                pairs.skip(i as int),
                (cur_start as int, cur_size as int),
            ) == coalesce(pairs),
        decreases regs@.len() - i,
    {
        let (address, size) = regs[i];
        let ghost before = blocks@.map_values(|b: AddressBlock| (b.offset + base, b.size as int));
        assert(pairs.skip(i as int)[0] == (address as int, size as int));
        assert(pairs.skip(i as int).skip(1) =~= pairs.skip(i + 1));
        let end = cur_start + cur_size;
        if cur_start <= address && address <= end {
            if address + size > end {
                cur_size = address + size - cur_start;
            }
        } else {
            blocks.push(AddressBlock { offset: cur_start - base, size: cur_size });
            assert(blocks@.map_values(|b: AddressBlock| (b.offset + base, b.size as int)) =~= before.push(
                (cur_start as int, (cur_size as int)),
            ));
            assert(before.push((cur_start as int, cur_size as int)) + coalesce_from(pairs.skip(i + 1), (address as int, size as int))
                =~= before + (seq![(cur_start as int, cur_size as int)] + coalesce_from(pairs.skip(i + 1), (address as int, size as int))));
            cur_start = address;
            cur_size = size;
        }
        i = i + 1;
    }
    let ghost before = blocks@.map_values(|b: AddressBlock| (b.offset + base, b.size as int));
    blocks.push(AddressBlock { offset: cur_start - base, size: cur_size });
    assert(pairs.skip(i as int) =~= Seq::<(int, int)>::empty());
    assert(blocks@.map_values(|b: AddressBlock| (b.offset + base, b.size as int)) =~= before.push(
        (cur_start as int, cur_size as int),
    ));
    blocks
}

/// The registers that determine a peripheral's memory footprint: for a union,
/// its own and those of its first alternative only; else all of them.
pub open spec fn footprint(g: RegisterGroupModel) -> Seq<RegisterModel> {
    if g.is_union && g.subgroups.len() > 0 {
        own_registers(g) + all_registers(g.subgroups[0])
    } else {
        all_registers(g)
    }
}

fn footprint_registers(p: &Peripheral) -> (r: Vec<&Register>)
    ensures
        register_models(r@) == footprint(p@.register_group),
{
    let g = &p.register_group;
    if g.is_union && g.subgroups.len() > 0 {
        let mut regs: Vec<&Register> = Vec::new();
        let mut i: usize = 0;
        while i < g.registers.len()
            invariant
                i <= g.registers@.len(),
                regs@.len() == i,
                forall|j: int| 0 <= j < i ==> (#[trigger] regs@[j])@ == g.registers@[j].1,
            decreases g.registers@.len() - i,
        {
            regs.push(g.registers.value(i));
            i = i + 1;
        }
        let ghost own = regs@;
        let sub = g.subgroups[0].get_all_registers();
        let mut j: usize = 0;
        while j < sub.len()
            invariant
                j <= sub@.len(),
                regs@ == own + sub@.subrange(0, j as int),
            decreases sub@.len() - j,
        {
            regs.push(sub[j]);
            assert(regs@ =~= own + sub@.subrange(0, j + 1));
            j = j + 1;
        }
        assert(sub@.subrange(0, j as int) =~= sub@);
        assert(register_models(own) =~= own_registers(g@));
        assert(register_models(regs@) =~= register_models(own) + register_models(sub@));
        assert(g@.subgroups[0] == g.subgroups@[0]@);
        regs
    } else {
        g.get_all_registers()
    }
}

/// The address of each register, in order.
pub open spec fn addresses_of(regs: Seq<RegisterModel>) -> Seq<usize> {
    regs.map_values(|m: RegisterModel| m.address)
}

/// The address and size of each register, in order.
pub open spec fn extents(regs: Seq<RegisterModel>) -> Seq<(int, int)> {
    regs.map_values(|r: RegisterModel| (r.address as int, r.size as int))
}

/// The address and size of the registers `regs` taken in the order of the
/// positions `order`.
pub open spec fn in_order(regs: Seq<RegisterModel>, order: Seq<usize>) -> Seq<(int, int)> {
    order.map_values(|k: usize| extents(regs)[k as int])
}

/// Whether `a` and `b` hold the same pairs, each perhaps more than once.
pub open spec fn same_pairs(a: Seq<(int, int)>, b: Seq<(int, int)>) -> bool {
    &&& forall|i: int| 0 <= i < a.len() ==> b.contains(#[trigger] a[i])
    &&& forall|j: int| 0 <= j < b.len() ==> a.contains(#[trigger] b[j])
}

/// Whether the addresses of `s` strictly ascend.
pub open spec fn strictly_ascending(s: Seq<(int, int)>) -> bool {
    forall|i: int, j: int| 0 <= i < j < s.len() ==> (#[trigger] s[i]).0 < (#[trigger] s[j]).0
}

proof fn lemma_sorted_unique(a: Seq<(int, int)>, b: Seq<(int, int)>)
    requires
        strictly_ascending(a),
        strictly_ascending(b),
        same_pairs(a, b),
    ensures
        a == b,
    decreases a.len(),
{
    if a.len() == 0 {
        if b.len() > 0 {
            assert(a.contains(b[0]));
        }
        assert(a =~= b);
    } else {
        assert(b.contains(a[0]));
        let j0 = choose|j: int| 0 <= j < b.len() && b[j] == a[0];
        assert(a.contains(b[0]));
        let i0 = choose|i: int| 0 <= i < a.len() && a[i] == b[0];
        if i0 > 0 {
            assert(a[0].0 < a[i0].0);
        }
        if j0 > 0 {
            assert(b[0].0 < b[j0].0);
        }
        assert(a[0] == b[0]);
        let a1 = a.skip(1);
        let b1 = b.skip(1);
        assert(strictly_ascending(a1)) by {
            assert forall|i: int, j: int| 0 <= i < j < a1.len() implies (#[trigger] a1[i]).0 < (#[trigger] a1[j]).0 by {
                assert(a1[i] == a[i + 1] && a1[j] == a[j + 1]);
            }
        }
        assert(strictly_ascending(b1)) by {
            assert forall|i: int, j: int| 0 <= i < j < b1.len() implies (#[trigger] b1[i]).0 < (#[trigger] b1[j]).0 by {
                assert(b1[i] == b[i + 1] && b1[j] == b[j + 1]);
            }
        }
        assert forall|i: int| 0 <= i < a1.len() implies b1.contains(#[trigger] a1[i]) by {
            assert(a1[i] == a[i + 1]);
            assert(b.contains(a[i + 1]));
            let j = choose|j: int| 0 <= j < b.len() && b[j] == a[i + 1];
            assert(a[0].0 < a[i + 1].0);
            assert(j != 0);
            assert(b1[j - 1] == b[j]);
        }
        assert forall|j: int| 0 <= j < b1.len() implies a1.contains(#[trigger] b1[j]) by {
            assert(b1[j] == b[j + 1]);
            assert(a.contains(b[j + 1]));
            let i = choose|i: int| 0 <= i < a.len() && a[i] == b[j + 1];
            assert(b[0].0 < b[j + 1].0);
            assert(i != 0);
            assert(a1[i - 1] == a[i]);
        }
        lemma_sorted_unique(a1, b1);
        assert(a =~= seq![a[0]] + a1);
        assert(b =~= seq![b[0]] + b1);
    }
}

/// Whether no two registers of `regs` share an address.
pub open spec fn distinct_addresses(regs: Seq<RegisterModel>) -> bool {
    forall|i: int, j: int| 0 <= i < regs.len() && 0 <= j < regs.len() && i != j ==> (#[trigger] regs[i]).address != (#[trigger] regs[j]).address
}

proof fn lemma_in_order_ascending(regs: Seq<RegisterModel>, order: Seq<usize>)
    requires
        is_ascending_order(addresses_of(regs), order),
        distinct_addresses(regs),
    ensures
        strictly_ascending(in_order(regs, order)),
{
    let s = in_order(regs, order);
    let keys = addresses_of(regs);
    assert forall|i: int, j: int| 0 <= i < j < s.len() implies (#[trigger] s[i]).0 < (#[trigger] s[j]).0 by {
        let a = order[i] as int;
        let b = order[j] as int;
        assert(order[i] != order[j]);
        assert(keys[a] < keys[b] || keys[a] == keys[b]);
        assert(regs[a].address != regs[b].address);
    }
}

/// The blocks do not depend on the order in which the registers are listed:
/// two lists of registers with the same addresses and sizes, no address twice
/// in either, give the same blocks once each is taken in ascending order of
/// address.
pub proof fn lemma_blocks_order_independent(
    x: Seq<RegisterModel>,
    y: Seq<RegisterModel>,
    ox: Seq<usize>,
    oy: Seq<usize>,
)
    requires
        is_ascending_order(addresses_of(x), ox),
        is_ascending_order(addresses_of(y), oy),
        distinct_addresses(x),
        distinct_addresses(y),
        same_pairs(extents(x), extents(y)),
        x.len() <= usize::MAX,
        y.len() <= usize::MAX,
    ensures
        coalesce(in_order(x, ox)) == coalesce(in_order(y, oy)),
{
    let a = in_order(x, ox);
    let b = in_order(y, oy);
    lemma_in_order_ascending(x, ox);
    lemma_in_order_ascending(y, oy);
    let ex = extents(x);
    let ey = extents(y);
    assert forall|i: int| 0 <= i < a.len() implies b.contains(#[trigger] a[i]) by {
        let k = ox[i] as int;
        assert(a[i] == ex[k]);
        assert(ey.contains(ex[k]));
        let m = choose|m: int| 0 <= m < ey.len() && ey[m] == ex[k];
        assert(appears(oy, m as usize));
        let j = choose|j: int| 0 <= j < oy.len() && #[trigger] oy[j] == m as usize;
        assert(b[j] == ey[m]);
    }
    assert forall|j: int| 0 <= j < b.len() implies a.contains(#[trigger] b[j]) by {
        let k = oy[j] as int;
        assert(b[j] == ey[k]);
        assert(ex.contains(ey[k]));
        let m = choose|m: int| 0 <= m < ex.len() && ex[m] == ey[k];
        assert(appears(ox, m as usize));
        let i = choose|i: int| 0 <= i < ox.len() && #[trigger] ox[i] == m as usize;
        assert(a[i] == ex[m]);
    }
    lemma_sorted_unique(a, b);
}

proof fn lemma_chain_ascending(s: Seq<(int, int)>)
    requires
        forall|k: int| 0 <= k < s.len() - 1 ==> (#[trigger] s[k]).0 < s[k + 1].0,
    ensures
        strictly_ascending(s),
    decreases s.len(),
{
    if s.len() > 1 {
        let t = s.drop_last();
        assert forall|k: int| 0 <= k < t.len() - 1 implies (#[trigger] t[k]).0 < t[k + 1].0 by {
            assert(t[k] == s[k] && t[k + 1] == s[k + 1]);
        }
        lemma_chain_ascending(t);
        assert forall|i: int, j: int| 0 <= i < j < s.len() implies (#[trigger] s[i]).0 < (#[trigger] s[j]).0 by {
            if j < s.len() - 1 {
                assert(t[i] == s[i] && t[j] == s[j]);
            } else if i < s.len() - 2 {
                assert(t[i] == s[i] && t[s.len() - 2] == s[s.len() - 2]);
                assert(s[s.len() - 2].0 < s[s.len() - 1].0);
            } else {
                assert(s[s.len() - 2].0 < s[s.len() - 1].0);
            }
        }
    }
}

/// Registers taken in ascending order of address come in ascending order of
/// address.
pub proof fn lemma_in_order_sorted(regs: Seq<RegisterModel>, order: Seq<usize>)
    requires
        is_ascending_order(addresses_of(regs), order),
    ensures
        ascending_starts(in_order(regs, order)),
{
    let s = in_order(regs, order);
    let keys = addresses_of(regs);
    assert forall|k: int| 0 <= k < s.len() implies (#[trigger] s[k]).1 >= 0 by {}
    assert forall|k: int| 0 <= k < s.len() - 1 implies (#[trigger] s[k]).0 <= s[k + 1].0 by {
        let a = order[k] as int;
        let b = order[k + 1] as int;
        assert(keys[a] < keys[b] || keys[a] == keys[b]);
    }
}

/// Coalescing blocks again gives the same blocks: registers laid out exactly
/// as the blocks of some registers, listed in any order, give those blocks
/// again.
pub proof fn lemma_blocks_idempotent(
    x: Seq<RegisterModel>,
    ox: Seq<usize>,
    y: Seq<RegisterModel>,
    oy: Seq<usize>,
)
    requires
        is_ascending_order(addresses_of(x), ox),
        is_ascending_order(addresses_of(y), oy),
        distinct_addresses(y),
        same_pairs(extents(y), coalesce(in_order(x, ox))),
        y.len() <= usize::MAX,
    ensures
        coalesce(in_order(y, oy)) == coalesce(in_order(x, ox)),
{
    let a = in_order(x, ox);
    let b = coalesce(a);
    let c = in_order(y, oy);
    let ey = extents(y);
    lemma_in_order_sorted(x, ox);
    if a.len() > 0 {
        lemma_coalesce_from_apart(a, (a[0].0, 0));
        assert forall|k: int| 0 <= k < b.len() - 1 implies (#[trigger] b[k]).0 < b[k + 1].0 by {
            assert(b[k].1 >= 0);
        }
    } else {
        assert(b =~= Seq::<(int, int)>::empty());
    }
    lemma_chain_ascending(b);
    lemma_in_order_ascending(y, oy);
    assert forall|i: int| 0 <= i < c.len() implies b.contains(#[trigger] c[i]) by {
        let k = oy[i] as int;
        assert(c[i] == ey[k]);
    }
    assert forall|j: int| 0 <= j < b.len() implies c.contains(#[trigger] b[j]) by {
        assert(ey.contains(b[j]));
        let m = choose|m: int| 0 <= m < ey.len() && ey[m] == b[j];
        assert(appears(oy, m as usize));
        let i = choose|i: int| 0 <= i < oy.len() && #[trigger] oy[i] == m as usize;
        assert(c[i] == ey[m]);
    }
    lemma_sorted_unique(c, b);
    lemma_coalesce_idempotent(a);
}

/// The blocks of memory that a peripheral's registers occupy (see
/// [`coalesce`]), taking the registers of [`footprint`] in ascending order of
/// address, with offsets relative to the peripheral's base address; `None`
/// where a register lies below the base address or ends beyond `usize::MAX`.
pub fn create_address_blocks(p: &Peripheral) -> (r: Option<Vec<AddressBlock>>)
    ensures
        r is Some <==> forall|i: int|
            0 <= i < footprint(p@.register_group).len() ==> p.address <= (
            #[trigger] footprint(p@.register_group)[i]).address && footprint(p@.register_group)[i].address
                + footprint(p@.register_group)[i].size <= usize::MAX,
        r matches Some(blocks) ==> forall|k: int|
            0 <= k < blocks@.len() - 1 ==> (#[trigger] blocks@[k]).offset + blocks@[k].size < blocks@[k + 1].offset,
        r matches Some(blocks) ==> exists|order: Seq<usize>|
            #[trigger] is_ascending_order(addresses_of(footprint(p@.register_group)), order) && blocks@.map_values(|b: AddressBlock| (b.offset + p.address, b.size as int)) == coalesce(
                order.map_values(|k: usize| extents(footprint(p@.register_group))[k as int]),
            ),
{
    let regs = footprint_registers(p);
    let ghost fp = footprint(p@.register_group);
    let mut addresses: Vec<usize> = Vec::new();
    let mut i: usize = 0;
    while i < regs.len()
        invariant
            i <= regs@.len(),
            fp == footprint(p@.register_group),
            register_models(regs@) == fp,
            addresses@.len() == i,
            forall|j: int| 0 <= j < i ==> #[trigger] addresses@[j] == fp[j].address,
            forall|j: int| 0 <= j < i ==> p.address <= (#[trigger] fp[j]).address && fp[j].address + fp[j].size <= usize::MAX,
        decreases regs@.len() - i,
    {
        let reg = regs[i];
        assert(reg@ == fp[i as int]);
        if reg.address < p.address || reg.address > usize::MAX - reg.size {
            assert(!(p.address <= fp[i as int].address && fp[i as int].address + fp[i as int].size <= usize::MAX));
            return None;
        }
        addresses.push(reg.address);
        i = i + 1;
    }
    assert(addresses@ =~= addresses_of(fp));
    let order = ascending_order(&addresses);
    let mut sorted: Vec<(usize, usize)> = Vec::new();
    let mut k: usize = 0;
    while k < order.len()
        invariant
            k <= order@.len(),
            fp == footprint(p@.register_group),
            register_models(regs@) == fp,
            is_ascending_order(addresses@, order@),
            addresses@.len() == fp.len(),
            forall|j: int| 0 <= j < fp.len() ==> p.address <= (#[trigger] fp[j]).address && fp[j].address + fp[j].size <= usize::MAX,
            sorted@.len() == k,
            forall|j: int| 0 <= j < k ==> (#[trigger] sorted@[j]).0 == fp[order@[j] as int].address && sorted@[j].1 == fp[order@[j] as int].size,
        decreases order@.len() - k,
    {
        let reg = regs[order[k]];
        assert(reg@ == fp[order@[k as int] as int]);
        sorted.push((reg.address, reg.size));
        k = k + 1;
    }
    let blocks = coalesce_blocks(&sorted, p.address);
    proof {
        lemma_in_order_sorted(fp, order@);
        lemma_coalesce_ordered(in_order(fp, order@));
    }
    assert(sorted@.map_values(|q: (usize, usize)| (q.0 as int, q.1 as int)) =~= in_order(fp, order@));
    proof {
        let bm = blocks@.map_values(|b: AddressBlock| (b.offset + p.address, b.size as int));
        assert(bm == coalesce(in_order(fp, order@)));
        assert forall|k: int| 0 <= k < blocks@.len() - 1 implies (#[trigger] blocks@[k]).offset + blocks@[k].size < blocks@[k + 1].offset by {
            assert(bm[k] == (blocks@[k].offset + p.address, blocks@[k].size as int));
            assert(bm[k + 1] == (blocks@[k + 1].offset + p.address, blocks@[k + 1].size as int));
        }
    }
    Some(blocks)
}

/// How the registers of a group are laid out in the output document: for a
/// union, its own registers directly, then one cluster for each subgroup
/// (given by its position) with every register under it; otherwise every
/// register under the group directly.
pub open spec fn register_layout(g: RegisterGroupModel) -> Seq<(Option<usize>, Seq<RegisterModel>)> {
    if g.is_union {
        seq![(None::<usize>, own_registers(g))] + Seq::new(
            g.subgroups.len(),
            |i: int| (Some(i as usize), all_registers(g.subgroups[i])),
        )
    } else {
        seq![(None::<usize>, all_registers(g))]
    }
}

/// The contents of a list of register sections.
pub open spec fn section_models<'a>(v: Seq<(Option<usize>, Vec<&'a Register>)>) -> Seq<(Option<usize>, Seq<RegisterModel>)> {
    v.map_values(|e: (Option<usize>, Vec<&'a Register>)| (e.0, register_models(e.1@)))
}

/// The layout of a group's registers in the output document (see
/// [`register_layout`]).
pub fn layout_registers(g: &RegisterGroup) -> (r: Vec<(Option<usize>, Vec<&Register>)>)
    ensures
        section_models(r@) == register_layout(g@),
{
    let mut out: Vec<(Option<usize>, Vec<&Register>)> = Vec::new();
    if !g.is_union {
        out.push((None, g.get_all_registers()));
        assert(section_models(out@) =~= register_layout(g@));
        return out;
    }
    let mut own: Vec<&Register> = Vec::new();
    let mut i: usize = 0;
    while i < g.registers.len()
        invariant
            i <= g.registers@.len(),
            own@.len() == i,
            forall|j: int| 0 <= j < i ==> (#[trigger] own@[j])@ == g.registers@[j].1,
        decreases g.registers@.len() - i,
    {
        own.push(g.registers.value(i));
        i = i + 1;
    }
    assert(register_models(own@) =~= own_registers(g@));
    out.push((None, own));
    let mut k: usize = 0;
    while k < g.subgroups.len()
        invariant
            k <= g.subgroups@.len(),
            g.is_union,
            out@.len() == k + 1,
            section_models(out@) =~= register_layout(g@).subrange(0, k + 1),
        decreases g.subgroups@.len() - k,
    {
        let regs = g.subgroups[k].get_all_registers();
        let ghost before = section_models(out@);
        out.push((Some(k), regs));
        proof {
            assert(g@.subgroups[k as int] == g.subgroups@[k as int]@);
            assert(section_models(out@) =~= before.push((Some(k), register_models(regs@))));
            assert(register_layout(g@)[k + 1] == (Some(k), all_registers(g@.subgroups[k as int])));
            assert(section_models(out@) =~= register_layout(g@).subrange(0, k + 2));
        }
        k = k + 1;
    }
    assert(register_layout(g@).subrange(0, k + 1) =~= register_layout(g@));
    out
}

/// Whether any register lies under a peripheral.
pub fn has_registers(p: &Peripheral) -> (r: bool)
    ensures
        r == (all_registers(p@.register_group).len() > 0),
{
    p.register_group.get_all_registers().len() > 0
}

/// A constraint on the values that may be written.
#[derive(Debug, Clone, Copy, PartialEq, Eq, Structural)]
pub enum WriteConstraint {
    /// Values from the first bound to the second.
    Range(u64, u64),
    /// The listed enumerated values only.
    UseEnumeratedValues,
}

/// The largest value of `width` bits, and `u64::MAX` for 64 bits and more.
pub open spec fn max_value(width: u32) -> u64 {
    if width >= 64 {
        u64::MAX
    } else {
        (vstd::arithmetic::power2::pow2(width as nat) - 1) as u64
    }
}

/// The write constraint that a restriction gives a register or field of
/// `width` bits: every value of the width for an unrestricted one wider than
/// one bit, the range or the enumeration where there is one, and none for an
/// unsafe one or a single unrestricted bit.
pub open spec fn write_constraint_of(restriction: RestrictionModel, width: u32) -> Option<WriteConstraint> {
    match restriction {
        RestrictionModel::Any => if width > 1 {
            Some(WriteConstraint::Range(0, max_value(width)))
        } else {
            None
        },
        RestrictionModel::Range(lo, hi) => Some(WriteConstraint::Range(lo, hi)),
        RestrictionModel::Enumerated(_) => Some(WriteConstraint::UseEnumeratedValues),
        RestrictionModel::Unsafe => None,
    }
}

/// The write constraint of a restriction for `width` bits (see
/// [`write_constraint_of`]).
pub fn write_constraint(restriction: &ValueRestriction, width: u32) -> (r: Option<WriteConstraint>)
    ensures
        r == write_constraint_of(restriction@, width),
{
    match restriction {
        ValueRestriction::Any => if width > 1 {
            let max = if width >= 64 {
                u64::MAX
            } else {
                let mut v: u64 = 1;
                let mut i: u32 = 0;
                proof {
                    vstd::arithmetic::power2::lemma2_to64();
                }
                while i < width
                    invariant
                        i <= width < 64,
                        v == vstd::arithmetic::power2::pow2(i as nat),
                    decreases width - i,
                {
                    proof {
                        vstd::arithmetic::power2::lemma_pow2_unfold((i + 1) as nat);
                        vstd::arithmetic::power2::lemma_pow2_strictly_increases((i + 1) as nat, 64);
                        vstd::arithmetic::power2::lemma2_to64();
                    }
                    v = v * 2;
                    i = i + 1;
                }
                proof {
                    vstd::arithmetic::power2::lemma_pow2_pos(width as nat);
                }
                v - 1
            };
            Some(WriteConstraint::Range(0, max))
        } else {
            None
        },
        ValueRestriction::Range(lo, hi) => Some(WriteConstraint::Range(*lo, *hi)),
        ValueRestriction::Enumerated(_) => Some(WriteConstraint::UseEnumeratedValues),
        ValueRestriction::Unsafe => None,
    }
}

} // verus!
