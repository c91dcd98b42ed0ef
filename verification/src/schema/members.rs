//! Which fields of a struct stand inside its union, and in what order.
use crate::schema_capnp::field;
use crate::struct_list;
use vstd::prelude::*;
use vstd::relations::*;
use vstd::seq_lib::*;

verus! {

/// Every field's discriminant and index. An index is counted in 16 bits.
pub open spec fn discriminants(fields: Seq<field::Reader>) -> Seq<(u16, u16)> {
    Seq::new(fields.len(), |i: int| (fields[i].discriminant_value, i as u16))
}

/// Pairs are ordered by discriminant first, then by index.
pub open spec fn pair_leq(a: (u16, u16), b: (u16, u16)) -> bool {
    a.0 < b.0 || (a.0 == b.0 && a.1 <= b.1)
}

/// The pairs of the fields inside the union, in the order of the fields.
pub open spec fn union_pairs(pairs: Seq<(u16, u16)>) -> Seq<(u16, u16)> {
    pairs.filter(|p: (u16, u16)| p.0 != field::NO_DISCRIMINANT)
}

/// The pairs of the fields outside the union, in the order of the fields.
pub open spec fn nonunion_pairs(pairs: Seq<(u16, u16)>) -> Seq<(u16, u16)> {
    pairs.filter(|p: (u16, u16)| p.0 == field::NO_DISCRIMINANT)
}

/// The indices of a sequence of pairs.
pub open spec fn indices(pairs: Seq<(u16, u16)>) -> Seq<u16> {
    pairs.map_values(|p: (u16, u16)| p.1)
}

/// The indices of the fields outside the union, in the order of the fields.
pub open spec fn nonunion_members(fields: Seq<field::Reader>) -> Seq<u16> {
    indices(nonunion_pairs(discriminants(fields)))
}

/// The indices of the fields inside the union, ordered by discriminant, and by
/// index among equal discriminants.
pub open spec fn members_by_discriminant(fields: Seq<field::Reader>) -> Seq<u16> {
    indices(
        union_pairs(discriminants(fields)).sort_by(|a: (u16, u16), b: (u16, u16)| pair_leq(a, b)),
    )
}

/// `<[T]>::sort` on pairs of integers: puts the items into ascending order, by
/// the first component and then by the second, and keeps every item.
#[verifier::external_body]
fn sort_pairs(pairs: &mut Vec<(u16, u16)>)
    ensures
        final(pairs)@.to_multiset() == old(pairs)@.to_multiset(),
        forall|i: int, j: int|
            0 <= i < j < final(pairs)@.len() ==> pair_leq(final(pairs)@[i], final(pairs)@[j]),
{
    pairs.sort();
}

/// The indices of the fields outside the union, and those of the fields inside
/// it by ascending discriminant.
pub fn get_indexes(fields: &struct_list::Reader<field::Reader>) -> (r: (Vec<u16>, Vec<u16>))
    ensures
        r.0@ == nonunion_members(fields@),
        r.1@ == members_by_discriminant(fields@),
{
    let mut union_member_indexes: Vec<(u16, u16)> = Vec::new();
    let mut nonunion_member_indexes: Vec<u16> = Vec::new();
    let ghost pairs = discriminants(fields@);
    let count: u32 = fields.len();
    let mut index: u32 = 0;
    while index < count
        invariant
            count == fields@.len(),
            0 <= index <= count,
            pairs == discriminants(fields@),
            union_member_indexes@ == union_pairs(pairs.take(index as int)),
            nonunion_member_indexes@ == indices(nonunion_pairs(pairs.take(index as int))),
        decreases count - index,
    {
        let disc: u16 = fields.get(index).discriminant_value;
        proof {
            reveal(Seq::filter);
            assert(pairs.take(index + 1).drop_last() =~= pairs.take(index as int));
        }
        if disc == field::NO_DISCRIMINANT {
            nonunion_member_indexes.push(index as u16);
        } else {
            union_member_indexes.push((disc, index as u16));
        }
        index += 1;
    }
    let ghost unsorted = union_member_indexes@;
    sort_pairs(&mut union_member_indexes);
    let mut members_by_discriminant: Vec<u16> = Vec::new();
    let mut k: usize = 0;
    while k < union_member_indexes.len()
        invariant
            0 <= k <= union_member_indexes@.len(),
            members_by_discriminant@ == indices(union_member_indexes@.take(k as int)),
        decreases union_member_indexes@.len() - k,
    {
        members_by_discriminant.push(union_member_indexes[k].1);
        k += 1;
    }
    proof {
        assert(pairs.take(count as int) =~= pairs);
        let leq = |a: (u16, u16), b: (u16, u16)| pair_leq(a, b);
        unsorted.lemma_sort_by_ensures(leq);
        lemma_sorted_unique(union_member_indexes@, unsorted.sort_by(leq), leq);
        assert(union_member_indexes@.take(k as int) =~= union_member_indexes@);
    }
    (nonunion_member_indexes, members_by_discriminant)
}

/// The pairs of the fields inside the union, ordered.
spec fn sorted_pairs(fields: Seq<field::Reader>) -> Seq<(u16, u16)> {
    union_pairs(discriminants(fields)).sort_by(|a: (u16, u16), b: (u16, u16)| pair_leq(a, b))
}

/// What a filter keeps of the first `n` pairs: those that satisfy it, by
/// ascending index.
proof fn lemma_kept_pairs(
    fields: Seq<field::Reader>,
    keep: spec_fn((u16, u16)) -> bool,
    n: int,
)
    requires
        0 <= n <= fields.len() <= 0x1_0000,
    ensures
        ({
            let pairs = discriminants(fields);
            let kept = pairs.take(n).filter(keep);
            &&& forall|a: int|
                0 <= a < kept.len() ==> {
                    let p = #[trigger] kept[a];
                    p.1 < n && keep(p) && p == pairs[p.1 as int]
                }
            &&& forall|a: int, b: int| 0 <= a < b < kept.len() ==> kept[a].1 < kept[b].1
            &&& forall|i: int|
                0 <= i < n && keep(#[trigger] pairs[i]) ==> kept.contains(pairs[i])
        }),
    decreases n,
{
    reveal(Seq::filter);
    let pairs = discriminants(fields);
    if n > 0 {
        lemma_kept_pairs(fields, keep, n - 1);
        assert(pairs.take(n).drop_last() =~= pairs.take(n - 1));
        let before = pairs.take(n - 1).filter(keep);
        let kept = pairs.take(n).filter(keep);
        assert forall|i: int| 0 <= i < n && keep(#[trigger] pairs[i]) implies kept.contains(
            pairs[i],
        ) by {
            if i < n - 1 {
                assert(before.contains(pairs[i]));
                let k = choose|k: int| 0 <= k < before.len() && before[k] == pairs[i];
                assert(kept[k] == pairs[i]);
            } else {
                assert(kept[kept.len() - 1] == pairs[i]);
            }
        }
    }
}

/// Every pair is kept by a filter or by its opposite.
proof fn lemma_all_kept(pairs: Seq<(u16, u16)>)
    ensures
        union_pairs(pairs).len() + nonunion_pairs(pairs).len() == pairs.len(),
    decreases pairs.len(),
{
    reveal(Seq::filter);
    if pairs.len() > 0 {
        lemma_all_kept(pairs.drop_last());
    }
}

/// The ordered pairs are the pairs of the union's fields, each once, by
/// ascending discriminant.
proof fn lemma_sorted_pairs(fields: Seq<field::Reader>)
    requires
        fields.len() <= 0x1_0000,
    ensures
        ({
            let pairs = discriminants(fields);
            let sorted = sorted_pairs(fields);
            &&& sorted.len() == union_pairs(pairs).len()
            &&& forall|a: int|
                0 <= a < sorted.len() ==> {
                    let p = #[trigger] sorted[a];
                    &&& p.1 < fields.len()
                    &&& p.0 != field::NO_DISCRIMINANT
                    &&& p == pairs[p.1 as int]
                }
            &&& forall|a: int, b: int|
                0 <= a < b < sorted.len() ==> pair_leq(sorted[a], sorted[b]) && sorted[a].1
                    != sorted[b].1
            &&& forall|i: int|
                0 <= i < fields.len() && (#[trigger] pairs[i]).0 != field::NO_DISCRIMINANT
                    ==> sorted.contains(pairs[i])
        }),
{
    let pairs = discriminants(fields);
    let keep = |p: (u16, u16)| p.0 != field::NO_DISCRIMINANT;
    let n = fields.len() as int;
    assert(pairs.take(n) =~= pairs);
    lemma_kept_pairs(fields, keep, n);
    let kept = union_pairs(pairs);
    let leq = |a: (u16, u16), b: (u16, u16)| pair_leq(a, b);
    let sorted = sorted_pairs(fields);
    kept.lemma_sort_by_ensures(leq);
    kept.to_multiset_ensures();
    sorted.to_multiset_ensures();
    assert(kept.no_duplicates());
    kept.lemma_multiset_has_no_duplicates();
    sorted.lemma_multiset_has_no_duplicates_conv();
    assert forall|a: int| 0 <= a < sorted.len() implies {
        let p = #[trigger] sorted[a];
        &&& p.1 < fields.len()
        &&& p.0 != field::NO_DISCRIMINANT
        &&& p == pairs[p.1 as int]
    } by {
        assert(sorted.contains(sorted[a]));
        assert(kept.contains(sorted[a]));
        let k = choose|k: int| 0 <= k < kept.len() && kept[k] == sorted[a];
        assert(kept[k] == sorted[a]);
    }
    assert forall|a: int, b: int| 0 <= a < b < sorted.len() implies pair_leq(sorted[a], sorted[b])
        && sorted[a].1 != sorted[b].1 by {
        assert(leq(sorted[a], sorted[b]));
        assert(sorted[a] != sorted[b]);
        assert(sorted[a] == pairs[sorted[a].1 as int]);
        assert(sorted[b] == pairs[sorted[b].1 as int]);
    }
    assert forall|i: int|
        0 <= i < fields.len() && (#[trigger] pairs[i]).0
            != field::NO_DISCRIMINANT implies sorted.contains(pairs[i]) by {
        assert(keep(pairs[i]));
        assert(kept.contains(pairs[i]));
        assert(kept.to_multiset().count(pairs[i]) > 0);
    }
}

/// Every field is either among the union's members or among the others, just
/// once, and there are no members besides.
pub proof fn law_members_partition_fields(fields: Seq<field::Reader>)
    requires
        fields.len() <= 0x1_0000,
    ensures
        nonunion_members(fields).len() + members_by_discriminant(fields).len() == fields.len(),
        nonunion_members(fields).no_duplicates(),
        members_by_discriminant(fields).no_duplicates(),
        forall|i: int|
            0 <= i < fields.len() ==> (nonunion_members(fields).contains(i as u16) <==> (
            #[trigger] fields[i]).discriminant_value == field::NO_DISCRIMINANT),
        forall|i: int|
            0 <= i < fields.len() ==> (members_by_discriminant(fields).contains(i as u16) <==> (
            #[trigger] fields[i]).discriminant_value != field::NO_DISCRIMINANT),
{
    let pairs = discriminants(fields);
    let n = fields.len() as int;
    let keep = |p: (u16, u16)| p.0 == field::NO_DISCRIMINANT;
    assert(pairs.take(n) =~= pairs);
    lemma_kept_pairs(fields, keep, n);
    lemma_sorted_pairs(fields);
    lemma_all_kept(pairs);
    let kept = nonunion_pairs(pairs);
    let sorted = sorted_pairs(fields);
    assert forall|i: int| 0 <= i < fields.len() implies (nonunion_members(fields).contains(i as u16)
        <==> (#[trigger] fields[i]).discriminant_value == field::NO_DISCRIMINANT) by {
        if nonunion_members(fields).contains(i as u16) {
            let k = choose|k: int|
                0 <= k < kept.len() && nonunion_members(fields)[k] == i as u16;
            assert(kept[k].1 == i as u16);
        }
        if fields[i].discriminant_value == field::NO_DISCRIMINANT {
            assert(keep(pairs[i]));
            assert(kept.contains(pairs[i]));
            let k = choose|k: int| 0 <= k < kept.len() && kept[k] == pairs[i];
            assert(nonunion_members(fields)[k] == i as u16);
        }
    }
    assert forall|i: int| 0 <= i < fields.len() implies (members_by_discriminant(fields).contains(
        i as u16,
    ) <==> (#[trigger] fields[i]).discriminant_value != field::NO_DISCRIMINANT) by {
        if members_by_discriminant(fields).contains(i as u16) {
            let k = choose|k: int|
                0 <= k < sorted.len() && members_by_discriminant(fields)[k] == i as u16;
            assert(sorted[k].1 == i as u16);
        }
        if fields[i].discriminant_value != field::NO_DISCRIMINANT {
            assert(pairs[i].0 != field::NO_DISCRIMINANT);
            assert(sorted.contains(pairs[i]));
            let k = choose|k: int| 0 <= k < sorted.len() && sorted[k] == pairs[i];
            assert(members_by_discriminant(fields)[k] == i as u16);
        }
    }
    let members = members_by_discriminant(fields);
    assert forall|a: int, b: int| 0 <= a < b < members.len() implies members[a] != members[b] by {
        assert(pair_leq(sorted[a], sorted[b]) && sorted[a].1 != sorted[b].1);
        assert(members[a] == sorted[a].1 && members[b] == sorted[b].1);
    }
}

/// The fields outside the union come in the order of their struct, those inside
/// it by ascending discriminant.
pub proof fn law_members_are_ordered(fields: Seq<field::Reader>)
    requires
        fields.len() <= 0x1_0000,
    ensures
        forall|a: int, b: int|
            0 <= a < b < nonunion_members(fields).len() ==> nonunion_members(fields)[a]
                < nonunion_members(fields)[b],
        forall|a: int, b: int|
            0 <= a < b < members_by_discriminant(fields).len() ==> fields[members_by_discriminant(
                fields,
            )[a] as int].discriminant_value <= fields[members_by_discriminant(
                fields,
            )[b] as int].discriminant_value,
{
    let pairs = discriminants(fields);
    let n = fields.len() as int;
    let keep = |p: (u16, u16)| p.0 == field::NO_DISCRIMINANT;
    assert(pairs.take(n) =~= pairs);
    lemma_kept_pairs(fields, keep, n);
    lemma_sorted_pairs(fields);
    let members = members_by_discriminant(fields);
    let sorted = sorted_pairs(fields);
    assert forall|a: int, b: int| 0 <= a < b < members.len() implies fields[members[a] as int].discriminant_value
        <= fields[members[b] as int].discriminant_value by {
        assert(pair_leq(sorted[a], sorted[b]));
        assert(members[a] == sorted[a].1 && members[b] == sorted[b].1);
    }
}

/// Every member is the place of a field.
pub proof fn law_members_are_fields(fields: Seq<field::Reader>)
    ensures
        forall|k: int|
            0 <= k < nonunion_members(fields).len() ==> #[trigger] nonunion_members(fields)[k]
                < fields.len(),
        forall|k: int|
            0 <= k < members_by_discriminant(fields).len() ==> #[trigger] members_by_discriminant(
                fields,
            )[k] < fields.len(),
{
    broadcast use group_filter_ensures;

    let pairs = discriminants(fields);
    let keep = |p: (u16, u16)| p.0 == field::NO_DISCRIMINANT;
    let drop = |p: (u16, u16)| p.0 != field::NO_DISCRIMINANT;
    let leq = |a: (u16, u16), b: (u16, u16)| pair_leq(a, b);
    let kept = nonunion_pairs(pairs);
    let dropped = union_pairs(pairs);
    let sorted = sorted_pairs(fields);
    dropped.lemma_sort_by_ensures(leq);
    assert forall|k: int| 0 <= k < kept.len() implies #[trigger] nonunion_members(fields)[k]
        < fields.len() by {
        assert(kept.contains(kept[k]));
        pairs.lemma_filter_contains_rev(keep, kept[k]);
        lemma_pair_index(fields, kept[k]);
    }
    assert forall|k: int| 0 <= k < sorted.len() implies #[trigger] members_by_discriminant(
        fields,
    )[k] < fields.len() by {
        assert(sorted.contains(sorted[k]));
        assert(dropped.contains(sorted[k]));
        pairs.lemma_filter_contains_rev(drop, sorted[k]);
        lemma_pair_index(fields, sorted[k]);
    }
}

proof fn lemma_pair_index(fields: Seq<field::Reader>, p: (u16, u16))
    requires
        discriminants(fields).contains(p),
    ensures
        p.1 < fields.len(),
{
    let i = choose|i: int| 0 <= i < fields.len() && discriminants(fields)[i] == p;
    assert(discriminants(fields)[i] == p);
    assert(p.1 == i as u16);
    assert(i as u16 <= i);
}

/// Whether the discriminants of the union's fields are the numbers from 0 up to
/// the number of those fields, each once.
pub open spec fn has_contiguous_union(fields: Seq<field::Reader>) -> bool {
    &&& forall|i: int|
        0 <= i < fields.len() && (#[trigger] fields[i]).discriminant_value
            != field::NO_DISCRIMINANT ==> fields[i].discriminant_value < members_by_discriminant(
            fields,
        ).len()
    &&& forall|i: int, j: int|
        0 <= i < j < fields.len() && (#[trigger] fields[i]).discriminant_value
            != field::NO_DISCRIMINANT ==> fields[i].discriminant_value != (
        #[trigger] fields[j]).discriminant_value
}

/// Where the discriminants of a union are the numbers from 0 on, the member at
/// the place `d` is the field whose discriminant is `d`.
pub proof fn law_member_has_its_discriminant(fields: Seq<field::Reader>, d: u16)
    requires
        fields.len() <= 0x1_0000,
        has_contiguous_union(fields),
        d < members_by_discriminant(fields).len(),
    ensures
        fields[members_by_discriminant(fields)[d as int] as int].discriminant_value == d,
{
    lemma_sorted_pairs(fields);
    let sorted = sorted_pairs(fields);
    let n = sorted.len() as int;
    assert forall|a: int, b: int| 0 <= a < b < n implies sorted[a].0 < sorted[b].0 by {
        let (p, q) = (sorted[a], sorted[b]);
        assert(pair_leq(p, q));
        assert(p.1 != q.1);
        assert(fields[p.1 as int].discriminant_value == p.0);
        assert(fields[q.1 as int].discriminant_value == q.0);
        if p.1 < q.1 {
            assert(fields[p.1 as int].discriminant_value != fields[q.1 as int].discriminant_value);
        } else {
            assert(fields[q.1 as int].discriminant_value != fields[p.1 as int].discriminant_value);
        }
    }
    assert(n == members_by_discriminant(fields).len());
    assert(forall|a: int| 0 <= a < n ==> (#[trigger] sorted[a]).0 < n) by {
        assert forall|a: int| 0 <= a < n implies (#[trigger] sorted[a]).0 < n by {
            assert(fields[sorted[a].1 as int].discriminant_value == sorted[a].0);
        }
    }
    lemma_at_least(sorted, d as int);
    lemma_at_most(sorted, d as int);
    assert(members_by_discriminant(fields)[d as int] == sorted[d as int].1);
}

/// Ascending numbers grow at least as fast as their places.
proof fn lemma_at_least(pairs: Seq<(u16, u16)>, k: int)
    requires
        0 <= k < pairs.len(),
        forall|a: int, b: int| 0 <= a < b < pairs.len() ==> pairs[a].0 < pairs[b].0,
    ensures
        pairs[k].0 >= k,
    decreases k,
{
    if k > 0 {
        lemma_at_least(pairs, k - 1);
    }
}

/// Ascending numbers that stay below their count grow no faster than their
/// places.
proof fn lemma_at_most(pairs: Seq<(u16, u16)>, k: int)
    requires
        0 <= k < pairs.len(),
        forall|a: int, b: int| 0 <= a < b < pairs.len() ==> pairs[a].0 < pairs[b].0,
        forall|a: int| 0 <= a < pairs.len() ==> (#[trigger] pairs[a]).0 < pairs.len(),
    ensures
        pairs[k].0 <= k,
    decreases pairs.len() - k,
{
    if k + 1 < pairs.len() {
        lemma_at_most(pairs, k + 1);
    }
}

/// Fields of the union that share a discriminant come in the order of their struct.
pub proof fn law_equal_discriminants_keep_their_order(
    fields: Seq<field::Reader>,
    a: int,
    b: int,
)
    requires
        fields.len() <= 0x1_0000,
        0 <= a < b < members_by_discriminant(fields).len(),
        fields[members_by_discriminant(fields)[a] as int].discriminant_value
            == fields[members_by_discriminant(fields)[b] as int].discriminant_value,
    ensures
        members_by_discriminant(fields)[a] < members_by_discriminant(fields)[b],
{
    lemma_sorted_pairs(fields);
    let members = members_by_discriminant(fields);
    let sorted = sorted_pairs(fields);
    assert(pair_leq(sorted[a], sorted[b]) && sorted[a].1 != sorted[b].1);
    assert(members[a] == sorted[a].1 && members[b] == sorted[b].1);
}

/// However many fields there are, each is counted once.
pub proof fn law_every_field_is_counted(fields: Seq<field::Reader>)
    ensures
        nonunion_members(fields).len() + members_by_discriminant(fields).len() == fields.len(),
{
    let pairs = discriminants(fields);
    let leq = |a: (u16, u16), b: (u16, u16)| pair_leq(a, b);
    lemma_all_kept(pairs);
    union_pairs(pairs).lemma_sort_by_ensures(leq);
    union_pairs(pairs).to_multiset_ensures();
    union_pairs(pairs).sort_by(leq).to_multiset_ensures();
}

} // verus!
