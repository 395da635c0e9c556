//! Entries of the variant table.
//!
//! The entry of a variant fingerprint holds the identifiers of the key groups
//! that produced the fingerprint, in the fixed layout. It is a set: no
//! identifier occurs twice, and an entry is never empty. References are added
//! by a merge, which the engine applies to the stored entry and the operands
//! that were written since, whenever and in whatever grouping it likes; they
//! are taken away by rewriting the entry, or by removing it with its last
//! reference. An entry that does not hold the reference and has nothing else
//! to lose is not touched.

use crate::coder::{deserialize_fixed_vec, serialize_fixed_vec};
use crate::distinct::{
    absorb, distinct, lemma_absorb, lemma_absorb_absorbed, lemma_absorb_known, lemma_absorb_new,
    lemma_without, without,
};
use crate::errors::EntryError;
use crate::ids::KeyGroupID;
use crate::wire::{
    bincode_vec_fixint_item, bincode_vec_fixint_len, entry_view, fixed_count, fixed_vec,
    lemma_fixed_vec_round_trip, read_fixed_vec, slice_views,
};
use std::collections::HashSet;
use vstd::prelude::*;

verus! {

/// What is to be done to the entry of a variant from which a reference is
/// taken away.
#[derive(Debug)]
pub enum VariantUpdate {
    /// There is no entry: nothing is to be done.
    Untouched,
    /// The entry is to be overwritten with these bytes.
    Rewrite(Vec<u8>),
    /// The entry is to be removed.
    Remove,
}

/// A `VariantUpdate` as contracts speak of it.
pub enum VariantStep {
    /// There is no entry: nothing is to be done.
    Untouched,
    /// The entry is to be overwritten with these bytes.
    Rewrite(Seq<u8>),
    /// The entry is to be removed.
    Remove,
}

impl View for VariantUpdate {
    type V = VariantStep;

    open spec fn view(&self) -> VariantStep {
        match self {
            VariantUpdate::Untouched => VariantStep::Untouched,
            VariantUpdate::Rewrite(bytes) => VariantStep::Rewrite(bytes@),
            VariantUpdate::Remove => VariantStep::Remove,
        }
    }
}

/// The entry that refers to `key_group` alone: the operand that is merged
/// into the entry of each variant of the group's keys.
pub fn new_variant_vec(key_group: KeyGroupID) -> (entry: Vec<u8>)
    ensures
        entry@ == fixed_vec(seq![key_group.0]),
{
    let mut ids: Vec<u64> = Vec::new();
    ids.push(key_group.0);
    assert(ids@ =~= seq![key_group.0]);
    serialize_fixed_vec(&ids).unwrap()
}

/// Takes `items` into `ids`, each at the end unless it is already there.
/// `seen` holds the members of `ids`, so that each item is looked up once.
fn absorb_ids(ids: &mut Vec<u64>, seen: &mut HashSet<u64>, items: &Vec<u64>)
    requires
        old(seen)@ == old(ids)@.to_set(),
    ensures
        final(ids)@ == absorb(old(ids)@, items@),
        final(seen)@ == final(ids)@.to_set(),
{
    broadcast use vstd::std_specs::hash::group_hash_axioms;

    let mut i: usize = 0;
    assert(items@.take(0) =~= Seq::<u64>::empty());
    while i < items.len()
        invariant
            i <= items.len(),
            ids@ == absorb(old(ids)@, items@.take(i as int)),
            seen@ == ids@.to_set(),
        decreases items.len() - i,
    {
        assert(items@.take(i as int + 1).drop_last() =~= items@.take(i as int));
        let ghost before = ids@;
        let item: u64 = items[i];
        if seen.insert(item) {
            ids.push(item);
            proof {
                before.lemma_push_to_set_commute(item);
            }
        } else {
            assert(before.to_set().insert(item) =~= before.to_set());
        }
        i += 1;
    }
    assert(items@.take(i as int) =~= items@);
}

/// Every one of `entries` is a sequence in the fixed layout.
pub open spec fn readable(entries: Seq<Seq<u8>>) -> bool {
    forall|i: int| 0 <= i < entries.len() ==> read_fixed_vec(#[trigger] entries[i]) is Some
}

/// The identifiers that each of `entries` holds.
pub open spec fn references(entries: Seq<Seq<u8>>) -> Seq<Seq<u64>> {
    entries.map_values(|entry: Seq<u8>| read_fixed_vec(entry).unwrap())
}

/// `ids` after it has taken in each of `operands` in turn.
pub open spec fn absorb_all(ids: Seq<u64>, operands: Seq<Seq<u64>>) -> Seq<u64>
    decreases operands.len(),
{
    if operands.len() == 0 {
        ids
    } else {
        absorb(absorb_all(ids, operands.drop_last()), operands.last())
    }
}

/// The identifiers from which a merge starts: those of the stored entry,
/// each once; none where nothing is stored; `None` where what is stored is
/// no sequence in the fixed layout.
pub open spec fn stored_ids(existing: Option<Seq<u8>>) -> Option<Seq<u64>> {
    match existing {
        None => Some(Seq::empty()),
        Some(bytes) => match read_fixed_vec(bytes) {
            None => None,
            Some(ids) => Some(distinct(ids)),
        },
    }
}

/// The identifiers that a merge arrives at: those that are stored, then
/// those of the operands in their order, each where it first occurs.
pub open spec fn merged_ids(existing: Option<Seq<u8>>, operands: Seq<Seq<u8>>) -> Seq<u64>
    recommends
        stored_ids(existing) is Some,
        readable(operands),
{
    absorb_all(stored_ids(existing).unwrap(), references(operands))
}

/// The entry that a merge of `operands` into `existing` leaves, or `None`
/// where the stored entry or an operand cannot be read.
pub open spec fn merged(existing: Option<Seq<u8>>, operands: Seq<Seq<u8>>) -> Option<Seq<u8>> {
    if stored_ids(existing) is Some && readable(operands) {
        Some(fixed_vec(merged_ids(existing, operands)))
    } else {
        None
    }
}

/// Merges `operands` into the entry of a variant: the union of the
/// references that the entry and the operands hold.
///
/// The references stand in the entry in the order in which they first occur,
/// those of the stored entry first, so that the same inputs always give the
/// same bytes. The result depends on the stored entry and the operands
/// alone, not on `_key`, and nothing else is read or changed, so the engine
/// may call this at any time. It is `None`, which the engine takes as a failed merge, where
/// the stored entry or an operand is no sequence in the fixed layout.
pub fn variant_append_merge(
    _key: &[u8],
    existing_val: Option<&[u8]>,
    operands: &[&[u8]],
) -> (merged_val: Option<Vec<u8>>)
    ensures
        match merged_val {
            Some(bytes) => merged(entry_view(existing_val), slice_views(operands@)) == Some(
                bytes@,
            ),
            None => merged(entry_view(existing_val), slice_views(operands@)) is None,
        },
{
    let mut ids: Vec<u64> = Vec::new();
    let mut seen: HashSet<u64> = HashSet::new();
    assert(ids@.to_set() =~= Set::<u64>::empty());
    match existing_val {
        None => {},
        Some(bytes) => match deserialize_fixed_vec(bytes) {
            None => {
                return None;
            },
            Some(stored) => {
                absorb_ids(&mut ids, &mut seen, &stored);
            },
        },
    }
    let ghost start = ids@;
    let ghost all = slice_views(operands@);
    assert(all.take(0) =~= Seq::<Seq<u8>>::empty());
    let mut i: usize = 0;
    while i < operands.len()
        invariant
            i <= operands.len(),
            all == slice_views(operands@),
            stored_ids(entry_view(existing_val)) == Some(start),
            readable(all.take(i as int)),
            ids@ == absorb_all(start, references(all.take(i as int))),
            seen@ == ids@.to_set(),
        decreases operands.len() - i,
    {
        let ghost before = all.take(i as int);
        let ghost taken = all.take(i as int + 1);
        assert(taken.drop_last() =~= before);
        assert(taken.last() == operands@[i as int]@);
        assert(references(taken).drop_last() =~= references(before));
        match deserialize_fixed_vec(operands[i]) {
            None => {
                assert(read_fixed_vec(all[i as int]) is None);
                return None;
            },
            Some(operand) => {
                absorb_ids(&mut ids, &mut seen, &operand);
            },
        }
        i += 1;
    }
    assert(all.take(i as int) =~= all);
    Some(serialize_fixed_vec(&ids).unwrap())
}

/// What is done to the entry of a variant when the reference to `key_group`
/// is taken away from it and the variant table answered with `entry`.
///
/// The entry goes when nothing is left in it without `key_group`. It is
/// rewritten when it holds more than one reference. An entry that holds a
/// single reference to another key group stays as it is.
pub open spec fn pruned(key_group: KeyGroupID, entry: Option<Seq<u8>>) -> Result<
    VariantStep,
    EntryError,
> {
    match entry {
        None => Ok(VariantStep::Untouched),
        Some(bytes) => match read_fixed_vec(bytes) {
            None => Err(EntryError::Corrupt),
            Some(ids) => {
                let rest = without(ids, key_group.0);
                if rest.len() == 0 {
                    Ok(VariantStep::Remove)
                } else if ids.len() > 1 {
                    Ok(VariantStep::Rewrite(fixed_vec(rest)))
                } else {
                    Ok(VariantStep::Untouched)
                }
            },
        },
    }
}

/// What is to be done to the entry of a variant when the reference to
/// `key_group` is taken away from it, from what the variant table holds for
/// the variant.
///
/// Where there is no entry, nothing is done. An entry that holds `key_group`
/// and nothing else, or nothing at all, is removed, so that no empty entry
/// is left behind. An entry with more than one reference is rewritten
/// without `key_group`, the others in their order. An entry that holds one
/// reference, to another key group, is left untouched. An entry that is no
/// sequence in the fixed layout gives `Corrupt`.
pub fn delete_variant_reference(key_group: KeyGroupID, entry: Option<&[u8]>) -> (update: Result<
    VariantUpdate,
    EntryError,
>)
    ensures
        match update {
            Ok(step) => pruned(key_group, entry_view(entry)) == Ok::<VariantStep, EntryError>(
                step@,
            ),
            Err(e) => pruned(key_group, entry_view(entry)) == Err::<VariantStep, EntryError>(e),
        },
{
    let bytes: &[u8] = match entry {
        None => {
            return Ok(VariantUpdate::Untouched);
        },
        Some(bytes) => bytes,
    };
    let len: usize = match bincode_vec_fixint_len(bytes) {
        None => {
            return Err(EntryError::Corrupt);
        },
        Some(len) => len,
    };
    let ghost ids = read_fixed_vec(bytes@).unwrap();
    let mut new_vec: Vec<u64> = Vec::with_capacity(len);
    let mut i: usize = 0;
    assert(ids.take(0) =~= Seq::<u64>::empty());
    while i < len
        invariant
            i <= len,
            read_fixed_vec(bytes@) == Some(ids),
            ids.len() == len,
            new_vec@ == without(ids.take(i as int), key_group.0),
        decreases len - i,
    {
        assert(ids.take(i as int + 1).drop_last() =~= ids.take(i as int));
        let other: u64 = bincode_vec_fixint_item(bytes, i).unwrap();
        if other != key_group.0 {
            new_vec.push(other);
        }
        i += 1;
    }
    assert(ids.take(i as int) =~= ids);
    if new_vec.len() == 0 {
        Ok(VariantUpdate::Remove)
    } else if len > 1 {
        Ok(VariantUpdate::Rewrite(serialize_fixed_vec(&new_vec).unwrap()))
    } else {
        Ok(VariantUpdate::Untouched)
    }
}

/// Some operand holds `id`.
pub open spec fn in_operands(operands: Seq<Seq<u64>>, id: u64) -> bool {
    exists|i: int| 0 <= i < operands.len() && (#[trigger] operands[i]).contains(id)
}

/// Taking in operands keeps a sequence free of repetitions, keeps what it
/// held, and adds exactly what the operands hold.
pub proof fn lemma_absorb_all(ids: Seq<u64>, operands: Seq<Seq<u64>>)
    ensures
        ids.no_duplicates() ==> absorb_all(ids, operands).no_duplicates(),
        forall|id: u64|
            absorb_all(ids, operands).contains(id) <==> ids.contains(id) || in_operands(
                operands,
                id,
            ),
    decreases operands.len(),
{
    if operands.len() == 0 {
        assert forall|id: u64| !in_operands(operands, id) by {}
    } else {
        let head = operands.drop_last();
        let last = operands.last();
        let before = absorb_all(ids, head);
        let after = absorb_all(ids, operands);
        lemma_absorb_all(ids, head);
        lemma_absorb(before, last);
        assert forall|id: u64|
            after.contains(id) <==> ids.contains(id) || in_operands(operands, id) by {
            assert(after.contains(id) <==> after.to_set().contains(id));
            assert(after.to_set().contains(id) <==> before.to_set().contains(id)
                || last.to_set().contains(id));
            assert(before.contains(id) <==> ids.contains(id) || in_operands(head, id));
            if in_operands(head, id) {
                let i = choose|i: int| 0 <= i < head.len() && (#[trigger] head[i]).contains(id);
                assert(operands[i].contains(id));
                assert(in_operands(operands, id));
            }
            if last.contains(id) {
                assert(operands[operands.len() - 1].contains(id));
                assert(in_operands(operands, id));
            }
            if in_operands(operands, id) {
                let i = choose|i: int|
                    0 <= i < operands.len() && (#[trigger] operands[i]).contains(id);
                if i < head.len() {
                    assert(head[i].contains(id));
                    assert(in_operands(head, id));
                } else {
                    assert(last.contains(id));
                }
            }
        }
    }
}

/// Taking in two runs of operands one after the other is taking in the two
/// joined.
pub proof fn lemma_absorb_all_concat(ids: Seq<u64>, first: Seq<Seq<u64>>, second: Seq<Seq<u64>>)
    ensures
        absorb_all(ids, first + second) == absorb_all(absorb_all(ids, first), second),
    decreases second.len(),
{
    if second.len() == 0 {
        assert(first + second =~= first);
    } else {
        lemma_absorb_all_concat(ids, first, second.drop_last());
        assert((first + second).drop_last() =~= first + second.drop_last());
        assert((first + second).last() == second.last());
    }
}

/// Taking in operands whose members are all there already changes nothing.
pub proof fn lemma_absorb_all_known(ids: Seq<u64>, operands: Seq<Seq<u64>>)
    requires
        forall|i: int, j: int|
            0 <= i < operands.len() && 0 <= j < operands[i].len() ==> ids.contains(
                #[trigger] operands[i][j],
            ),
    ensures
        absorb_all(ids, operands) == ids,
    decreases operands.len(),
{
    if operands.len() > 0 {
        let head = operands.drop_last();
        assert forall|i: int, j: int|
            0 <= i < head.len() && 0 <= j < head[i].len() implies ids.contains(
            #[trigger] head[i][j],
        ) by {
            assert(head[i][j] == operands[i][j]);
        }
        lemma_absorb_all_known(ids, head);
        assert forall|j: int| 0 <= j < operands.last().len() implies ids.contains(
            #[trigger] operands.last()[j],
        ) by {
            assert(operands.last()[j] == operands[operands.len() - 1][j]);
        }
        lemma_absorb_known(ids, operands.last());
    }
}

/// Taking in the outcome of a merge of operands among themselves is taking
/// in those operands.
pub proof fn lemma_absorb_all_merged(ids: Seq<u64>, operands: Seq<Seq<u64>>)
    ensures
        absorb(ids, absorb_all(Seq::empty(), operands)) == absorb_all(ids, operands),
    decreases operands.len(),
{
    if operands.len() > 0 {
        lemma_absorb_all_merged(ids, operands.drop_last());
        lemma_absorb_absorbed(
            ids,
            absorb_all(Seq::empty(), operands.drop_last()),
            operands.last(),
        );
    }
}

/// What a merge leaves is a set, and it is the union of what went in: the
/// entry reads back as a sequence in which no identifier occurs twice, and an
/// identifier is in it exactly if the stored entry or one of the operands
/// holds it. So the order of the operands, and how they are spread over
/// merges, do not change which references the entry holds.
pub proof fn lemma_merge_is_union(existing: Option<Seq<u8>>, operands: Seq<Seq<u8>>)
    requires
        merged(existing, operands) is Some,
        merged_ids(existing, operands).len() <= u64::MAX,
    ensures
        read_fixed_vec(merged(existing, operands).unwrap()) == Some(merged_ids(existing, operands)),
        merged_ids(existing, operands).no_duplicates(),
        forall|id: u64|
            merged_ids(existing, operands).contains(id) <==> (existing matches Some(bytes)
                && read_fixed_vec(bytes).unwrap().contains(id)) || exists|i: int|
                0 <= i < operands.len() && read_fixed_vec(#[trigger] operands[i]).unwrap().contains(
                    id,
                ),
{
    let start = stored_ids(existing).unwrap();
    let ids = merged_ids(existing, operands);
    let refs = references(operands);
    lemma_fixed_vec_round_trip(ids);
    lemma_absorb_all(start, refs);
    match existing {
        None => {},
        Some(bytes) => {
            let stored = read_fixed_vec(bytes).unwrap();
            lemma_absorb(Seq::<u64>::empty(), stored);
            assert forall|id: u64| start.contains(id) <==> stored.contains(id) by {
                assert(start.to_set().contains(id) <==> Seq::<u64>::empty().to_set().union(
                    stored.to_set(),
                ).contains(id));
            }
        },
    }
    assert forall|id: u64|
        ids.contains(id) <==> (existing matches Some(bytes) && read_fixed_vec(
            bytes,
        ).unwrap().contains(id)) || exists|i: int|
            0 <= i < operands.len() && read_fixed_vec(#[trigger] operands[i]).unwrap().contains(
                id,
            ) by {
        let in_stored = existing matches Some(bytes) && read_fixed_vec(bytes).unwrap().contains(
            id,
        );
        let in_refs = in_operands(refs, id);
        let in_operands = exists|i: int|
            0 <= i < operands.len() && read_fixed_vec(#[trigger] operands[i]).unwrap().contains(
                id,
            );
        assert(ids.contains(id) <==> start.contains(id) || in_refs);
        assert(start.contains(id) <==> in_stored);
        if in_refs {
            let i = choose|i: int| 0 <= i < refs.len() && (#[trigger] refs[i]).contains(id);
            assert(read_fixed_vec(operands[i]).unwrap().contains(id));
        }
        if in_operands {
            let i = choose|i: int|
                0 <= i < operands.len() && read_fixed_vec(
                    #[trigger] operands[i],
                ).unwrap().contains(id);
            assert(refs[i].contains(id));
        }
    }
}

/// The order of the operands, and how often each of them occurs, do not
/// change which references a merge leaves: two runs of operands of which
/// each holds the operands of the other leave the same set.
pub proof fn lemma_merge_order(
    existing: Option<Seq<u8>>,
    operands: Seq<Seq<u8>>,
    reordered: Seq<Seq<u8>>,
)
    requires
        forall|operand: Seq<u8>| operands.contains(operand) <==> reordered.contains(operand),
        merged(existing, operands) is Some,
    ensures
        merged(existing, reordered) is Some,
        merged_ids(existing, reordered).to_set() == merged_ids(existing, operands).to_set(),
        merged_ids(existing, reordered).len() == merged_ids(existing, operands).len(),
{
    let start = stored_ids(existing).unwrap();
    let one = merged_ids(existing, operands);
    let other = merged_ids(existing, reordered);
    assert forall|i: int| 0 <= i < reordered.len() implies read_fixed_vec(
        #[trigger] reordered[i],
    ) is Some by {
        assert(reordered.contains(reordered[i]));
        let j = choose|j: int| 0 <= j < operands.len() && operands[j] == reordered[i];
        assert(read_fixed_vec(operands[j]) is Some);
    }
    lemma_absorb_all(start, references(operands));
    lemma_absorb_all(start, references(reordered));
    assert forall|id: u64|
        in_operands(references(operands), id) <==> in_operands(references(reordered), id) by {
        if in_operands(references(operands), id) {
            let i = choose|i: int|
                0 <= i < operands.len() && (#[trigger] references(operands)[i]).contains(id);
            assert(operands.contains(operands[i]));
            let j = choose|j: int| 0 <= j < reordered.len() && reordered[j] == operands[i];
            assert(references(reordered)[j].contains(id));
        }
        if in_operands(references(reordered), id) {
            let i = choose|i: int|
                0 <= i < reordered.len() && (#[trigger] references(reordered)[i]).contains(id);
            assert(reordered.contains(reordered[i]));
            let j = choose|j: int| 0 <= j < operands.len() && operands[j] == reordered[i];
            assert(references(operands)[j].contains(id));
        }
    }
    assert(other.to_set() =~= one.to_set()) by {
        assert forall|id: u64| other.to_set().contains(id) <==> one.to_set().contains(id) by {
            assert(other.contains(id) <==> start.contains(id) || in_operands(
                references(reordered),
                id,
            ));
            assert(one.contains(id) <==> start.contains(id) || in_operands(
                references(operands),
                id,
            ));
        }
    }
    match existing {
        None => {},
        Some(bytes) => {
            lemma_absorb(Seq::<u64>::empty(), read_fixed_vec(bytes).unwrap());
        },
    }
    one.unique_seq_to_set();
    other.unique_seq_to_set();
}

/// Merging a reference to `key_group` into the entry of a variant leaves an
/// entry that is a set, holds `key_group`, and besides it holds what was
/// stored and no more.
pub proof fn lemma_put_reference(existing: Option<Seq<u8>>, key_group: KeyGroupID)
    requires
        stored_ids(existing) is Some,
        stored_ids(existing).unwrap().len() < u64::MAX,
    ensures
        merged(existing, seq![fixed_vec(seq![key_group.0])]) is Some,
        read_fixed_vec(merged(existing, seq![fixed_vec(seq![key_group.0])]).unwrap()) == Some(
            merged_ids(existing, seq![fixed_vec(seq![key_group.0])]),
        ),
        merged_ids(existing, seq![fixed_vec(seq![key_group.0])]).no_duplicates(),
        merged_ids(existing, seq![fixed_vec(seq![key_group.0])]).len() >= 1,
        forall|id: u64|
            merged_ids(existing, seq![fixed_vec(seq![key_group.0])]).contains(id) <==> id
                == key_group.0 || (existing matches Some(bytes) && read_fixed_vec(
                bytes,
            ).unwrap().contains(id)),
{
    let single = seq![key_group.0];
    let operand = fixed_vec(single);
    let operands = seq![operand];
    let start = stored_ids(existing).unwrap();
    lemma_fixed_vec_round_trip(single);
    assert(readable(operands));
    assert(references(operands) =~= seq![single]);
    assert(seq![single].drop_last() =~= Seq::<Seq<u64>>::empty());
    assert(seq![single].last() == single);
    assert(absorb_all(start, Seq::<Seq<u64>>::empty()) == start);
    assert(merged_ids(existing, operands) == absorb(start, single));
    lemma_absorb(start, single);
    lemma_merge_is_union(existing, operands);
    let ids = merged_ids(existing, operands);
    assert(single[0] == key_group.0);
    assert(read_fixed_vec(operands[0]).unwrap().contains(key_group.0));
    assert(ids.contains(key_group.0));
    assert forall|id: u64|
        ids.contains(id) <==> id == key_group.0 || (existing matches Some(bytes)
            && read_fixed_vec(bytes).unwrap().contains(id)) by {
        if exists|i: int|
            0 <= i < operands.len() && read_fixed_vec(#[trigger] operands[i]).unwrap().contains(
                id,
            ) {
            let i = choose|i: int|
                0 <= i < operands.len() && read_fixed_vec(
                    #[trigger] operands[i],
                ).unwrap().contains(id);
            assert(single.contains(id));
            let j = choose|j: int| 0 <= j < single.len() && single[j] == id;
            assert(id == key_group.0);
        }
    }
}

/// Merging in two steps leaves the entry that one merge of all the operands
/// leaves.
pub proof fn lemma_merge_grouping(
    existing: Option<Seq<u8>>,
    first: Seq<Seq<u8>>,
    second: Seq<Seq<u8>>,
)
    requires
        merged(existing, first) is Some,
        readable(second),
        merged_ids(existing, first).len() <= u64::MAX,
    ensures
        merged(merged(existing, first), second) == merged(existing, first + second),
{
    let start = stored_ids(existing).unwrap();
    let middle = merged_ids(existing, first);
    lemma_merge_is_union(existing, first);
    lemma_absorb_new(Seq::<u64>::empty(), middle);
    assert(Seq::<u64>::empty() + middle =~= middle);
    assert(stored_ids(merged(existing, first)) == Some(middle));
    assert(readable(first + second)) by {
        assert forall|i: int| 0 <= i < (first + second).len() implies read_fixed_vec(
            #[trigger] (first + second)[i],
        ) is Some by {
            if i < first.len() {
                assert((first + second)[i] == first[i]);
            } else {
                assert((first + second)[i] == second[i - first.len()]);
            }
        }
    }
    assert(references(first + second) =~= references(first) + references(second));
    lemma_absorb_all_concat(start, references(first), references(second));
}

/// Operands may be merged among themselves before they are merged into the
/// entry: the entry that is left is the same.
pub proof fn lemma_merge_partial(
    existing: Option<Seq<u8>>,
    before: Seq<Seq<u8>>,
    middle: Seq<Seq<u8>>,
    after: Seq<Seq<u8>>,
)
    requires
        readable(middle),
        merged_ids(None, middle).len() <= u64::MAX,
    ensures
        merged(None, middle) is Some,
        merged(existing, before + seq![merged(None, middle).unwrap()] + after) == merged(
            existing,
            before + middle + after,
        ),
{
    let partial_ids = merged_ids(None, middle);
    let partial = merged(None, middle).unwrap();
    lemma_fixed_vec_round_trip(partial_ids);
    let short = before + seq![partial] + after;
    let long = before + middle + after;
    assert(readable(short) <==> readable(long)) by {
        if readable(short) {
            assert forall|i: int| 0 <= i < long.len() implies read_fixed_vec(
                #[trigger] long[i],
            ) is Some by {
                if i < before.len() {
                    assert(long[i] == short[i]);
                } else if i < before.len() + middle.len() {
                    assert(long[i] == middle[i - before.len()]);
                } else {
                    assert(long[i] == short[i - middle.len() + 1]);
                }
            }
        }
        if readable(long) {
            assert forall|i: int| 0 <= i < short.len() implies read_fixed_vec(
                #[trigger] short[i],
            ) is Some by {
                if i < before.len() {
                    assert(short[i] == long[i]);
                } else if i == before.len() {
                    assert(short[i] == partial);
                } else {
                    assert(short[i] == long[i + middle.len() - 1]);
                }
            }
        }
    }
    if stored_ids(existing) is Some && readable(long) {
        let start = stored_ids(existing).unwrap();
        let first = absorb_all(start, references(before));
        assert(references(short) =~= references(before) + seq![partial_ids] + references(after));
        assert(references(long) =~= references(before) + references(middle) + references(after));
        lemma_absorb_all_concat(
            start,
            references(before) + seq![partial_ids],
            references(after),
        );
        lemma_absorb_all_concat(start, references(before), seq![partial_ids]);
        assert(seq![partial_ids].drop_last() =~= Seq::<Seq<u64>>::empty());
        assert(seq![partial_ids].last() == partial_ids);
        assert(absorb_all(first, Seq::<Seq<u64>>::empty()) == first);
        assert(absorb_all(first, seq![partial_ids]) == absorb(first, partial_ids));
        lemma_absorb_all_merged(first, references(middle));
        lemma_absorb_all_concat(start, references(before) + references(middle), references(after));
        lemma_absorb_all_concat(start, references(before), references(middle));
    }
}

/// Merging the same operands once more leaves the entry as it is.
pub proof fn lemma_merge_repeated(existing: Option<Seq<u8>>, operands: Seq<Seq<u8>>)
    requires
        merged(existing, operands) is Some,
        merged_ids(existing, operands).len() <= u64::MAX,
    ensures
        merged(merged(existing, operands), operands) == merged(existing, operands),
{
    let ids = merged_ids(existing, operands);
    let refs = references(operands);
    lemma_merge_is_union(existing, operands);
    lemma_absorb_new(Seq::<u64>::empty(), ids);
    assert(Seq::<u64>::empty() + ids =~= ids);
    assert(stored_ids(merged(existing, operands)) == Some(ids));
    assert forall|i: int, j: int| 0 <= i < refs.len() && 0 <= j < refs[i].len() implies ids.contains(
        #[trigger] refs[i][j],
    ) by {
        assert(read_fixed_vec(operands[i]).unwrap().contains(refs[i][j]));
    }
    lemma_absorb_all_known(ids, refs);
}

/// Taking a reference away from an entry that is a set: an entry that holds
/// the key group alone is removed; an entry that holds it among others is
/// rewritten to a set of those others, which is not empty and reads back as
/// it was written; an entry that does not hold it keeps what it holds.
pub proof fn lemma_delete_reference(entry: Seq<u8>, key_group: KeyGroupID)
    requires
        read_fixed_vec(entry) is Some,
        read_fixed_vec(entry).unwrap().no_duplicates(),
        read_fixed_vec(entry).unwrap().len() >= 1,
    ensures
        ({
            let ids = read_fixed_vec(entry).unwrap();
            let rest = without(ids, key_group.0);
            &&& rest.no_duplicates()
            &&& forall|id: u64| rest.contains(id) <==> ids.contains(id) && id != key_group.0
            &&& ids.contains(key_group.0) && ids.len() == 1 ==> pruned(key_group, Some(entry))
                == Ok::<VariantStep, EntryError>(VariantStep::Remove)
            &&& ids.len() > 1 ==> {
                &&& pruned(key_group, Some(entry)) == Ok::<VariantStep, EntryError>(
                    VariantStep::Rewrite(fixed_vec(rest)),
                )
                &&& read_fixed_vec(fixed_vec(rest)) == Some(rest)
                &&& rest.len() >= 1
                &&& ids.contains(key_group.0) ==> rest.len() == ids.len() - 1
            }
            &&& !ids.contains(key_group.0) ==> rest == ids
            &&& !ids.contains(key_group.0) && ids.len() == 1 ==> pruned(key_group, Some(entry))
                == Ok::<VariantStep, EntryError>(VariantStep::Untouched)
        }),
{
    let ids = read_fixed_vec(entry).unwrap();
    let rest = without(ids, key_group.0);
    lemma_without(ids, key_group.0);
    assert(ids.len() == fixed_count(entry));
    lemma_fixed_vec_round_trip(rest);
}

/// Nothing that `delete_variant_reference` writes is an empty entry, and
/// where the entry was a set, what it writes is a set without `key_group`.
pub proof fn lemma_rewrite_is_not_empty(entry: Seq<u8>, key_group: KeyGroupID)
    ensures
        pruned(key_group, Some(entry)) matches Ok(VariantStep::Rewrite(rewritten)) ==> {
            &&& read_fixed_vec(rewritten) matches Some(rest)
            &&& rest.len() >= 1
            &&& !rest.contains(key_group.0)
            &&& read_fixed_vec(entry).unwrap().no_duplicates() ==> rest.no_duplicates()
        },
{
    match read_fixed_vec(entry) {
        None => {},
        Some(ids) => {
            let rest = without(ids, key_group.0);
            lemma_without(ids, key_group.0);
            assert(ids.len() == fixed_count(entry));
            lemma_fixed_vec_round_trip(rest);
        },
    }
}

} // verus!
