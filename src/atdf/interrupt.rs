//! Interrupts: their vector index and name, and the merging of shared vectors.
use vstd::prelude::*;
use crate::chip::Interrupt;
use crate::element::{attr_of, nonempty_attr_of, opt_view, Element};
use crate::error::{Error, Warning};
use crate::text;
use crate::util::{int_value, is_int_text, parse_int};

verus! {

/// The name of an interrupt element: its name, after its module instance and
/// an underscore where it names one.
pub open spec fn interrupt_name(el: Element) -> Seq<char> {
    match attr_of(&el, "module-instance"@) {
        Some(m) => m + "_"@ + attr_of(&el, "name"@)->0,
        None => attr_of(&el, "name"@)->0,
    }
}

/// Reads an interrupt element.
pub fn parse(interrupt: &Element) -> (r: Result<Interrupt, Error>)
    ensures
        r is Ok <==> (attr_of(interrupt, "name"@) is Some && (attr_of(interrupt, "index"@) matches Some(
            t,
        ) && is_int_text(t))),
        r matches Ok(i) ==> i.name@ == interrupt_name(*interrupt) && i.index == int_value(
            attr_of(interrupt, "index"@)->0,
        ) && opt_view(i.description) == nonempty_attr_of(interrupt, "caption"@),
{
    let inst_name = interrupt.attr("name")?;
    let name = match interrupt.attr_opt("module-instance") {
        Some(m) => text::join3(m.as_str(), "_", inst_name.as_str()),
        None => inst_name.clone(),
    };
    let index = parse_int(interrupt.attr("index")?.as_str())?;
    let description = interrupt.nonempty_attr("caption");
    Ok(Interrupt { name, description, index })
}

/// Whether `i` is the position of the first underscore in `s`.
pub open spec fn first_underscore_at(s: Seq<char>, i: int) -> bool {
    0 <= i < s.len() && s[i] == '_' && forall|j: int| 0 <= j < i ==> s[j] != '_'
}

/// The name under which an interrupt named `existing` takes in another one,
/// named `other`, that shares its vector: `existing` followed by the part of
/// `other` from its first underscore on, or by an underscore and all of
/// `other` where it has none.
pub open spec fn merged_name(existing: Seq<char>, other: Seq<char>) -> Seq<char> {
    if exists|i: int| first_underscore_at(other, i) {
        existing + other.skip(choose|i: int| first_underscore_at(other, i))
    } else {
        existing + "_"@ + other
    }
}

/// Whether some entry of `acc` has the vector `index`.
pub open spec fn has_index(acc: Seq<(Seq<char>, usize)>, index: usize) -> bool {
    exists|p: int| 0 <= p < acc.len() && #[trigger] acc[p].1 == index
}

/// Interrupts given as name and vector, after taking in `entry`: merged into the
/// entry that has its vector, else appended.
pub open spec fn merge_into(acc: Seq<(Seq<char>, usize)>, entry: (Seq<char>, usize)) -> Seq<
    (Seq<char>, usize),
> {
    if has_index(acc, entry.1) {
        let p = choose|p: int| 0 <= p < acc.len() && #[trigger] acc[p].1 == entry.1;
        acc.update(p, (merged_name(acc[p].0, entry.0), acc[p].1))
    } else {
        acc.push(entry)
    }
}

/// The interrupts `list`, given as name and vector, with those that share a
/// vector merged into the first of them, in order of first appearance.
pub open spec fn merged_interrupts(list: Seq<(Seq<char>, usize)>) -> Seq<(Seq<char>, usize)>
    decreases list.len(),
{
    if list.len() == 0 {
        Seq::empty()
    } else {
        merge_into(merged_interrupts(list.drop_last()), list.last())
    }
}

/// Name and vector of each interrupt of `v`.
pub open spec fn name_and_index(v: Seq<Interrupt>) -> Seq<(Seq<char>, usize)> {
    v.map_values(|i: Interrupt| (i.name@, i.index))
}

/// Whether no two entries of `acc` share a vector.
pub open spec fn distinct_indices(acc: Seq<(Seq<char>, usize)>) -> bool {
    forall|p: int, q: int|
        0 <= p < acc.len() && 0 <= q < acc.len() && p != q ==> #[trigger] acc[p].1 != #[trigger] acc[q].1
}

proof fn lemma_merge_into_distinct(acc: Seq<(Seq<char>, usize)>, entry: (Seq<char>, usize))
    requires
        distinct_indices(acc),
    ensures
        distinct_indices(merge_into(acc, entry)),
        forall|x: usize| has_index(merge_into(acc, entry), x) <==> (has_index(acc, x) || x == entry.1),
{
    let r = merge_into(acc, entry);
    if has_index(acc, entry.1) {
        let p = choose|p: int| 0 <= p < acc.len() && #[trigger] acc[p].1 == entry.1;
        assert forall|x: usize| has_index(r, x) <==> (has_index(acc, x) || x == entry.1) by {
            if has_index(acc, x) {
                let q = choose|q: int| 0 <= q < acc.len() && #[trigger] acc[q].1 == x;
                assert(r[q].1 == x);
            }
            if has_index(r, x) {
                let q = choose|q: int| 0 <= q < r.len() && #[trigger] r[q].1 == x;
                assert(acc[q].1 == x);
            }
        }
    } else {
        assert forall|x: usize| has_index(r, x) <==> (has_index(acc, x) || x == entry.1) by {
            if has_index(acc, x) {
                let q = choose|q: int| 0 <= q < acc.len() && #[trigger] acc[q].1 == x;
                assert(r[q].1 == x);
            }
            if x == entry.1 {
                assert(r[acc.len() as int].1 == x);
            }
            if has_index(r, x) {
                let q = choose|q: int| 0 <= q < r.len() && #[trigger] r[q].1 == x;
                if q < acc.len() {
                    assert(acc[q].1 == x);
                }
            }
        }
    }
}

/// After merging, no two interrupts share a vector, and every vector of the
/// declarations is present.
pub proof fn lemma_merged_indices(list: Seq<(Seq<char>, usize)>)
    ensures
        distinct_indices(merged_interrupts(list)),
        forall|x: usize|
            has_index(merged_interrupts(list), x) <==> exists|i: int|
                0 <= i < list.len() && #[trigger] list[i].1 == x,
    decreases list.len(),
{
    if list.len() > 0 {
        let init = list.drop_last();
        lemma_merged_indices(init);
        lemma_merge_into_distinct(merged_interrupts(init), list.last());
        assert forall|x: usize|
            has_index(merged_interrupts(list), x) <==> exists|i: int|
                0 <= i < list.len() && #[trigger] list[i].1 == x by {
            let acc = merged_interrupts(init);
            assert(merged_interrupts(list) == merge_into(acc, list.last()));
            assert(has_index(merged_interrupts(list), x) <==> (has_index(acc, x) || x == list.last().1));
            assert(has_index(acc, x) <==> exists|i: int| 0 <= i < init.len() && #[trigger] init[i].1 == x);
            if has_index(acc, x) {
                let i = choose|i: int| 0 <= i < init.len() && #[trigger] init[i].1 == x;
                assert(list[i].1 == x);
            } else if x == list.last().1 {
                assert(list[list.len() - 1].1 == x);
            } else {
                assert forall|i: int| 0 <= i < list.len() implies #[trigger] list[i].1 != x by {
                    if i < init.len() {
                        assert(init[i].1 == list[i].1);
                    }
                }
            }
        }
    }
}

/// Whether `q` is the first declaration in `list` with the vector `index`.
pub open spec fn first_with_index(list: Seq<Interrupt>, q: int, index: usize) -> bool {
    0 <= q < list.len() && list[q].index == index && forall|p: int| 0 <= p < q ==> list[p].index != index
}

/// Whether `e` has the description of the first declaration in `list` that
/// shares its vector.
pub open spec fn described_by_first(list: Seq<Interrupt>, e: Interrupt) -> bool {
    exists|q: int| first_with_index(list, q, e.index) && e.description == list[q].description
}

/// `existing` extended by the name `other` of an interrupt that shares its
/// vector (see [`merged_name`]).
pub fn merge_name(existing: &str, other: &str) -> (r: String)
    ensures
        r@ == merged_name(existing@, other@),
{
    match text::find_char(other, '_') {
        Some(i) => {
            proof {
                assert(first_underscore_at(other@, i as int));
                let k = choose|k: int| first_underscore_at(other@, k);
                assert(k == i) by {
                    if k < i {
                        assert(other@[k] != '_');
                    }
                    if i < k {
                        assert(other@[i as int] != '_');
                    }
                }
            }
            let n = other.unicode_len();
            let rest = other.substring_char(i, n);
            assert(rest@ =~= other@.skip(i as int));
            text::join(existing, rest)
        },
        None => text::join3(existing, "_", other),
    }
}

/// Merges interrupts that share a vector into the first of them, whose name
/// is extended by the other's (see [`merged_name`]); each merge is reported
/// in `warnings`. The result keeps the order of first appearance.
pub fn merge_interrupts(list: Vec<Interrupt>, warnings: &mut Vec<Warning>) -> (r: Vec<Interrupt>)
    ensures
        name_and_index(r@) == merged_interrupts(name_and_index(list@)),
        distinct_indices(name_and_index(r@)),
        forall|p: int| 0 <= p < r@.len() ==> described_by_first(list@, #[trigger] r@[p]),
        old(warnings)@.is_prefix_of(final(warnings)@),
{
    let ghost keys = name_and_index(list@);
    let ghost all = list@;
    let mut acc: Vec<Interrupt> = Vec::new();
    let mut rest = list;
    let ghost mut i: int = 0;
    proof {
        assert(keys.subrange(0, 0) =~= Seq::<(Seq<char>, usize)>::empty());
        assert(name_and_index(acc@) =~= Seq::<(Seq<char>, usize)>::empty());
    }
    while rest.len() > 0
        invariant
            0 <= i,
            keys.len() == i + rest@.len(),
            forall|j: int| 0 <= j < rest@.len() ==> (#[trigger] rest@[j].name@, rest@[j].index) == keys[j + i],
            name_and_index(acc@) == merged_interrupts(keys.subrange(0, i)),
            old(warnings)@.is_prefix_of(warnings@),
            all == list@,
            keys == name_and_index(all),
            forall|j: int| 0 <= j < rest@.len() ==> #[trigger] rest@[j] == all[j + i],
            forall|p: int| 0 <= p < acc@.len() ==> described_by_first(all, #[trigger] acc@[p]),
        decreases rest@.len(),
    {
        let declared = rest.remove(0);
        assert(declared == all[i]);
        let ghost before = name_and_index(acc@);
        let ghost acc0 = acc@;
        proof {
            assert(keys.subrange(0, i + 1).drop_last() =~= keys.subrange(0, i));
            assert(keys.subrange(0, i + 1).last() == (declared.name@, declared.index));
        }
        let mut p: usize = 0;
        while p < acc.len() && acc[p].index != declared.index
            invariant
                p <= acc@.len(),
                forall|q: int| 0 <= q < p ==> acc@[q].index != declared.index,
            decreases acc@.len() - p,
        {
            p = p + 1;
        }
        if p < acc.len() {
            proof {
                assert(before[p as int].1 == declared.index);
                lemma_merged_indices(keys.subrange(0, i));
                let c = choose|c: int| 0 <= c < before.len() && #[trigger] before[c].1 == declared.index;
                assert(c == p);
            }
            let name = merge_name(acc[p].name.as_str(), declared.name.as_str());
            let old_name = acc[p].name.clone();
            let merged = Interrupt {
                name: name.clone(),
                description: crate::chip::copy_opt(&acc[p].description),
                index: acc[p].index,
            };
            acc.set(p, merged);
            warnings.push(Warning::InterruptsMerged(old_name, declared.name, name));
            proof {
                assert(name_and_index(acc@) =~= merge_into(before, keys[i]));
                assert forall|q: int| 0 <= q < acc@.len() implies described_by_first(all, #[trigger] acc@[q]) by {
                    assert(described_by_first(all, acc0[q]));
                    if q == p {
                        assert(acc@[q].index == acc0[q].index && acc@[q].description == acc0[q].description);
                        let w = choose|w: int| first_with_index(all, w, acc0[q].index) && acc0[q].description == all[w].description;
                        assert(first_with_index(all, w, acc@[q].index) && acc@[q].description == all[w].description);
                    } else {
                        assert(acc@[q] == acc0[q]);
                    }
                }
            }
        } else {
            proof {
                assert(!has_index(before, declared.index));
                lemma_merged_indices(keys.subrange(0, i));
                assert forall|q: int| 0 <= q < i implies all[q].index != declared.index by {
                    assert(keys.subrange(0, i)[q].1 == all[q].index);
                }
                assert(first_with_index(all, i, declared.index));
            }
            acc.push(declared);
            proof {
                assert(name_and_index(acc@) =~= merge_into(before, keys[i]));
                assert forall|q: int| 0 <= q < acc@.len() implies described_by_first(all, #[trigger] acc@[q]) by {
                    if q < acc0.len() {
                        assert(acc@[q] == acc0[q]);
                    } else {
                        assert(acc@[q] == all[i]);
                    }
                }
            }
        }
        proof {
            i = i + 1;
        }
    }
    proof {
        assert(keys.subrange(0, i) =~= keys);
        lemma_merged_indices(keys);
    }
    acc
}

} // verus!
