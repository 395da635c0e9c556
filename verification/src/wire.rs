//! The byte layouts of stored entries.
//!
//! Every table value is a length-prefixed sequence. Two layouts are in use,
//! both as `bincode` writes them:
//!
//! * the *compact* layout, in which the element count (and every integer
//!   element) is written as a variable-length integer, so that a reader can
//!   learn the count from the first few bytes of an entry;
//! * the *fixed* layout, in which the count and every element occupy eight
//!   bytes, so that entries can be walked and rebuilt element by element.
//!
//! Multi-byte integers are little-endian in both. The layouts are part of the
//! on-disk contract: two processes that disagree on them corrupt each other's
//! entries.
//!
//! Each layout is given twice: as the bytes that a writer produces for a
//! value, and as the value that a reader finds in given bytes. The lemmas
//! show that a reader finds what a writer wrote. The readers at the end of
//! the file look into an entry without decoding all of it.

use vstd::bytes::*;
use vstd::prelude::*;
use vstd::slice::slice_subrange;

verus! {

/// Largest value that the compact layout writes as a single byte.
pub const SINGLE_BYTE_MAX: u8 = 250;

/// First byte of a compact integer that continues with two bytes.
pub const U16_MARKER: u8 = 251;

/// First byte of a compact integer that continues with four bytes.
pub const U32_MARKER: u8 = 252;

/// First byte of a compact integer that continues with eight bytes.
pub const U64_MARKER: u8 = 253;

/// Width in bytes of an integer in the fixed layout.
pub const FIXED_WIDTH: usize = 8;

/// The compact form of `n`: the shortest of the four shapes that holds it.
pub open spec fn varint(n: u64) -> Seq<u8> {
    if n <= SINGLE_BYTE_MAX {
        seq![n as u8]
    } else if n <= 0xFFFF {
        seq![U16_MARKER] + spec_u16_to_le_bytes(n as u16)
    } else if n <= 0xFFFF_FFFF {
        seq![U32_MARKER] + spec_u32_to_le_bytes(n as u32)
    } else {
        seq![U64_MARKER] + spec_u64_to_le_bytes(n)
    }
}

/// What a reader finds at position `at` of `bytes` when it expects a compact
/// integer: the value and the position just behind it. A reader accepts each
/// of the four shapes whatever the value, also one that a shorter shape
/// could have held; it accepts nothing that starts with a byte above 253 and
/// nothing that is cut short.
pub open spec fn read_varint(bytes: Seq<u8>, at: int) -> Option<(u64, int)> {
    if at < 0 || at >= bytes.len() {
        None
    } else if bytes[at] <= SINGLE_BYTE_MAX {
        Some((bytes[at] as u64, at + 1))
    } else if bytes[at] == U16_MARKER && at + 3 <= bytes.len() {
        Some((spec_u16_from_le_bytes(bytes.subrange(at + 1, at + 3)) as u64, at + 3))
    } else if bytes[at] == U32_MARKER && at + 5 <= bytes.len() {
        Some((spec_u32_from_le_bytes(bytes.subrange(at + 1, at + 5)) as u64, at + 5))
    } else if bytes[at] == U64_MARKER && at + 9 <= bytes.len() {
        Some((spec_u64_from_le_bytes(bytes.subrange(at + 1, at + 9)), at + 9))
    } else {
        None
    }
}

/// The compact integers of `items`, one behind the other.
pub open spec fn varints(items: Seq<u64>) -> Seq<u8>
    decreases items.len(),
{
    if items.len() == 0 {
        Seq::empty()
    } else {
        varint(items[0]) + varints(items.drop_first())
    }
}

/// The compact layout of a sequence of integers: the count, then the items.
pub open spec fn varint_vec(items: Seq<u64>) -> Seq<u8> {
    varint(items.len() as u64) + varints(items)
}

/// What a reader finds at `at` when it expects `count` compact integers: the
/// integers and the position just behind the last of them.
pub open spec fn read_varints(bytes: Seq<u8>, at: int, count: nat) -> Option<(Seq<u64>, int)>
    decreases count,
{
    if count == 0 {
        Some((Seq::empty(), at))
    } else {
        match read_varint(bytes, at) {
            None => None,
            Some((first, next)) => match read_varints(bytes, next, (count - 1) as nat) {
                None => None,
                Some((rest, end)) => Some((seq![first] + rest, end)),
            },
        }
    }
}

/// The sequence of integers that `bytes` holds in the compact layout, if
/// `bytes` is such a sequence and nothing follows it.
pub open spec fn read_varint_vec(bytes: Seq<u8>) -> Option<Seq<u64>> {
    match read_varint(bytes, 0) {
        None => None,
        Some((count, next)) => match read_varints(bytes, next, count as nat) {
            None => None,
            Some((items, end)) => if end == bytes.len() {
                Some(items)
            } else {
                None
            },
        },
    }
}

/// A byte string in the compact layout: its length, then its bytes.
pub open spec fn byte_string(s: Seq<u8>) -> Seq<u8> {
    varint(s.len() as u64) + s
}

/// The byte strings of `items` in the compact layout, one behind the other.
pub open spec fn byte_strings(items: Seq<Seq<u8>>) -> Seq<u8>
    decreases items.len(),
{
    if items.len() == 0 {
        Seq::empty()
    } else {
        byte_string(items[0]) + byte_strings(items.drop_first())
    }
}

/// The compact layout of a sequence of byte strings: the count, then the
/// strings.
pub open spec fn byte_string_vec(items: Seq<Seq<u8>>) -> Seq<u8> {
    varint(items.len() as u64) + byte_strings(items)
}

/// What a reader finds at `at` when it expects a byte string: the string and
/// the position just behind it.
pub open spec fn read_byte_string(bytes: Seq<u8>, at: int) -> Option<(Seq<u8>, int)> {
    match read_varint(bytes, at) {
        None => None,
        Some((len, next)) => if next + len <= bytes.len() {
            Some((bytes.subrange(next, next + len), next + len))
        } else {
            None
        },
    }
}

/// What a reader finds at `at` when it expects `count` byte strings.
pub open spec fn read_byte_strings(bytes: Seq<u8>, at: int, count: nat) -> Option<
    (Seq<Seq<u8>>, int),
>
    decreases count,
{
    if count == 0 {
        Some((Seq::empty(), at))
    } else {
        match read_byte_string(bytes, at) {
            None => None,
            Some((first, next)) => match read_byte_strings(bytes, next, (count - 1) as nat) {
                None => None,
                Some((rest, end)) => Some((seq![first] + rest, end)),
            },
        }
    }
}

/// The sequence of byte strings that `bytes` holds in the compact layout, if
/// `bytes` is such a sequence and nothing follows it.
pub open spec fn read_byte_string_vec(bytes: Seq<u8>) -> Option<Seq<Seq<u8>>> {
    match read_varint(bytes, 0) {
        None => None,
        Some((count, next)) => match read_byte_strings(bytes, next, count as nat) {
            None => None,
            Some((items, end)) => if end == bytes.len() {
                Some(items)
            } else {
                None
            },
        },
    }
}

/// The items of `ids` in the fixed layout, one behind the other.
pub open spec fn fixed_items(ids: Seq<u64>) -> Seq<u8>
    decreases ids.len(),
{
    if ids.len() == 0 {
        Seq::empty()
    } else {
        spec_u64_to_le_bytes(ids[0]) + fixed_items(ids.drop_first())
    }
}

/// The fixed layout of a sequence of integers: the count, then the items,
/// eight bytes each.
pub open spec fn fixed_vec(ids: Seq<u64>) -> Seq<u8> {
    spec_u64_to_le_bytes(ids.len() as u64) + fixed_items(ids)
}

/// The count that a sequence in the fixed layout announces in its first
/// eight bytes.
pub open spec fn fixed_count(bytes: Seq<u8>) -> u64
    recommends
        bytes.len() >= FIXED_WIDTH,
{
    spec_u64_from_le_bytes(bytes.subrange(0, 8))
}

/// The item at `index` of a sequence in the fixed layout.
pub open spec fn fixed_item(bytes: Seq<u8>, index: int) -> u64
    recommends
        0 <= index,
        16 + 8 * index <= bytes.len(),
{
    spec_u64_from_le_bytes(bytes.subrange(8 + 8 * index, 16 + 8 * index))
}

/// The sequence of integers that `bytes` holds in the fixed layout, if
/// `bytes` is such a sequence and nothing follows it: the announced count
/// accounts for every byte behind it.
pub open spec fn read_fixed_vec(bytes: Seq<u8>) -> Option<Seq<u64>> {
    if bytes.len() >= FIXED_WIDTH && bytes.len() - 8 == 8 * fixed_count(bytes) {
        Some(Seq::new(fixed_count(bytes) as nat, |i: int| fixed_item(bytes, i)))
    } else {
        None
    }
}

/// What a table answered for a key, as the bytes of the entry or the lack of
/// one.
pub open spec fn entry_view(entry: Option<&[u8]>) -> Option<Seq<u8>> {
    match entry {
        Some(bytes) => Some(bytes@),
        None => None,
    }
}

/// The byte strings that a vector of keys holds.
pub open spec fn views(keys: Seq<Vec<u8>>) -> Seq<Seq<u8>> {
    keys.map_values(|key: Vec<u8>| key@)
}

/// The byte strings that a sequence of borrowed byte strings holds.
pub open spec fn slice_views(items: Seq<&[u8]>) -> Seq<Seq<u8>> {
    items.map_values(|item: &[u8]| item@)
}

/// `part` stands in `bytes` from position `at` on.
pub open spec fn occurs_at(bytes: Seq<u8>, at: int, part: Seq<u8>) -> bool {
    &&& 0 <= at
    &&& at + part.len() <= bytes.len()
    &&& bytes.subrange(at, at + part.len()) == part
}

/// Where two parts stand one behind the other, each of them stands in its
/// place.
pub proof fn lemma_occurs_split(bytes: Seq<u8>, at: int, first: Seq<u8>, second: Seq<u8>)
    requires
        occurs_at(bytes, at, first + second),
    ensures
        occurs_at(bytes, at, first),
        occurs_at(bytes, at + first.len(), second),
{
    let whole = bytes.subrange(at, at + (first + second).len());
    assert(bytes.subrange(at, at + first.len()) =~= whole.subrange(0, first.len() as int));
    assert(whole.subrange(0, first.len() as int) =~= first);
    assert(bytes.subrange(at + first.len(), at + first.len() + second.len()) =~= whole.subrange(
        first.len() as int,
        whole.len() as int,
    ));
    assert(whole.subrange(first.len() as int, whole.len() as int) =~= second);
}

/// A compact integer takes one, three, five or nine bytes.
pub proof fn lemma_varint_len(n: u64)
    ensures
        varint(n).len() == (if n <= SINGLE_BYTE_MAX {
            1int
        } else if n <= 0xFFFF {
            3int
        } else if n <= 0xFFFF_FFFF {
            5int
        } else {
            9int
        }),
{
    lemma_auto_spec_u16_to_from_le_bytes();
    lemma_auto_spec_u32_to_from_le_bytes();
    lemma_auto_spec_u64_to_from_le_bytes();
}

/// A reader gets back the integer that was written in compact form.
pub proof fn lemma_read_varint(bytes: Seq<u8>, at: int, n: u64)
    requires
        occurs_at(bytes, at, varint(n)),
    ensures
        read_varint(bytes, at) == Some((n, at + varint(n).len())),
{
    lemma_auto_spec_u16_to_from_le_bytes();
    lemma_auto_spec_u32_to_from_le_bytes();
    lemma_auto_spec_u64_to_from_le_bytes();
    lemma_varint_len(n);
    let part = varint(n);
    assert(bytes[at] == bytes.subrange(at, at + part.len())[0]);
    if n <= SINGLE_BYTE_MAX {
    } else if n <= 0xFFFF {
        lemma_occurs_split(bytes, at, seq![U16_MARKER], spec_u16_to_le_bytes(n as u16));
    } else if n <= 0xFFFF_FFFF {
        lemma_occurs_split(bytes, at, seq![U32_MARKER], spec_u32_to_le_bytes(n as u32));
    } else {
        lemma_occurs_split(bytes, at, seq![U64_MARKER], spec_u64_to_le_bytes(n));
    }
}

/// A reader gets back the integers that were written in compact form.
pub proof fn lemma_read_varints(bytes: Seq<u8>, at: int, items: Seq<u64>)
    requires
        occurs_at(bytes, at, varints(items)),
    ensures
        read_varints(bytes, at, items.len()) == Some((items, at + varints(items).len())),
    decreases items.len(),
{
    if items.len() > 0 {
        let first = varint(items[0]);
        lemma_occurs_split(bytes, at, first, varints(items.drop_first()));
        lemma_read_varint(bytes, at, items[0]);
        lemma_read_varints(bytes, at + first.len(), items.drop_first());
        assert(seq![items[0]] + items.drop_first() =~= items);
    }
}

/// Reading what was written in the compact layout gives the sequence back.
pub proof fn lemma_varint_vec_round_trip(items: Seq<u64>)
    requires
        items.len() <= u64::MAX,
    ensures
        read_varint_vec(varint_vec(items)) == Some(items),
{
    let bytes = varint_vec(items);
    let count = varint(items.len() as u64);
    assert(bytes.subrange(0, bytes.len() as int) =~= bytes);
    lemma_occurs_split(bytes, 0, count, varints(items));
    lemma_read_varint(bytes, 0, items.len() as u64);
    lemma_read_varints(bytes, count.len() as int, items);
}

/// A reader gets back the byte string that was written.
pub proof fn lemma_read_byte_string(bytes: Seq<u8>, at: int, s: Seq<u8>)
    requires
        occurs_at(bytes, at, byte_string(s)),
        s.len() <= u64::MAX,
    ensures
        read_byte_string(bytes, at) == Some((s, at + byte_string(s).len())),
{
    let len = varint(s.len() as u64);
    lemma_occurs_split(bytes, at, len, s);
    lemma_read_varint(bytes, at, s.len() as u64);
}

/// A reader gets back the byte strings that were written.
pub proof fn lemma_read_byte_strings(bytes: Seq<u8>, at: int, items: Seq<Seq<u8>>)
    requires
        occurs_at(bytes, at, byte_strings(items)),
        forall|i: int| 0 <= i < items.len() ==> (#[trigger] items[i]).len() <= u64::MAX,
    ensures
        read_byte_strings(bytes, at, items.len()) == Some(
            (items, at + byte_strings(items).len()),
        ),
    decreases items.len(),
{
    if items.len() > 0 {
        let first = byte_string(items[0]);
        lemma_occurs_split(bytes, at, first, byte_strings(items.drop_first()));
        lemma_read_byte_string(bytes, at, items[0]);
        assert forall|i: int| 0 <= i < items.drop_first().len() implies (
        #[trigger] items.drop_first()[i]).len() <= u64::MAX by {
            assert(items.drop_first()[i] == items[i + 1]);
        }
        lemma_read_byte_strings(bytes, at + first.len(), items.drop_first());
        assert(seq![items[0]] + items.drop_first() =~= items);
    }
}

/// A reader that finds `count` byte strings returns `count` of them.
pub proof fn lemma_read_byte_strings_len(bytes: Seq<u8>, at: int, count: nat)
    ensures
        read_byte_strings(bytes, at, count) matches Some((items, end)) ==> items.len() == count,
    decreases count,
{
    if count > 0 {
        match read_byte_string(bytes, at) {
            None => {},
            Some((first, next)) => {
                lemma_read_byte_strings_len(bytes, next, (count - 1) as nat);
            },
        }
    }
}

/// Reading what was written in the compact layout gives the byte strings
/// back.
pub proof fn lemma_byte_string_vec_round_trip(items: Seq<Seq<u8>>)
    requires
        items.len() <= u64::MAX,
        forall|i: int| 0 <= i < items.len() ==> (#[trigger] items[i]).len() <= u64::MAX,
    ensures
        read_byte_string_vec(byte_string_vec(items)) == Some(items),
{
    let bytes = byte_string_vec(items);
    let count = varint(items.len() as u64);
    assert(bytes.subrange(0, bytes.len() as int) =~= bytes);
    lemma_occurs_split(bytes, 0, count, byte_strings(items));
    lemma_read_varint(bytes, 0, items.len() as u64);
    lemma_read_byte_strings(bytes, count.len() as int, items);
}

/// In the fixed layout every item takes eight bytes and stands at eight
/// times its index.
pub proof fn lemma_fixed_items(ids: Seq<u64>, index: int)
    requires
        0 <= index < ids.len(),
    ensures
        fixed_items(ids).len() == 8 * ids.len(),
        fixed_items(ids).subrange(8 * index, 8 * index + 8) == spec_u64_to_le_bytes(ids[index]),
    decreases ids.len(),
{
    lemma_auto_spec_u64_to_from_le_bytes();
    lemma_fixed_items_len(ids.drop_first());
    let first = spec_u64_to_le_bytes(ids[0]);
    let rest = fixed_items(ids.drop_first());
    if index == 0 {
        assert((first + rest).subrange(0, 8) =~= first);
    } else {
        lemma_fixed_items(ids.drop_first(), index - 1);
        assert((first + rest).subrange(8 * index, 8 * index + 8) =~= rest.subrange(
            8 * (index - 1),
            8 * (index - 1) + 8,
        ));
    }
}

/// In the fixed layout `ids` takes eight bytes for each item.
pub proof fn lemma_fixed_items_len(ids: Seq<u64>)
    ensures
        fixed_items(ids).len() == 8 * ids.len(),
    decreases ids.len(),
{
    lemma_auto_spec_u64_to_from_le_bytes();
    if ids.len() > 0 {
        lemma_fixed_items_len(ids.drop_first());
    }
}

/// Reading what was written in the fixed layout gives the sequence back.
pub proof fn lemma_fixed_vec_round_trip(ids: Seq<u64>)
    requires
        ids.len() <= u64::MAX,
    ensures
        fixed_vec(ids).len() == 8 + 8 * ids.len(),
        read_fixed_vec(fixed_vec(ids)) == Some(ids),
{
    lemma_auto_spec_u64_to_from_le_bytes();
    lemma_fixed_items_len(ids);
    let bytes = fixed_vec(ids);
    let count = spec_u64_to_le_bytes(ids.len() as u64);
    let items = fixed_items(ids);
    assert(bytes.subrange(0, 8) =~= count);
    let read = Seq::new(fixed_count(bytes) as nat, |i: int| fixed_item(bytes, i));
    assert forall|i: int| 0 <= i < ids.len() implies read[i] == ids[i] by {
        lemma_fixed_items(ids, i);
        assert(bytes.subrange(8 + 8 * i, 16 + 8 * i) =~= items.subrange(8 * i, 8 * i + 8));
    }
    assert(read =~= ids);
}

/// Reads the compact integer that starts at `*skip_bytes` and moves
/// `*skip_bytes` behind it. Where there is none, nothing moves.
pub fn bincode_u64_le_varint(bytes: &[u8], skip_bytes: &mut usize) -> (value: Option<u64>)
    ensures
        match read_varint(bytes@, *old(skip_bytes) as int) {
            Some((n, next)) => value == Some(n) && *final(skip_bytes) == next,
            None => value is None && *final(skip_bytes) == *old(skip_bytes),
        },
{
    let at: usize = *skip_bytes;
    if at >= bytes.len() {
        return None;
    }
    let first: u8 = bytes[at];
    let available: usize = bytes.len() - at;
    if first <= SINGLE_BYTE_MAX {
        *skip_bytes = at + 1;
        Some(first as u64)
    } else if first == U16_MARKER && available >= 3 {
        let n: u16 = u16_from_le_bytes(slice_subrange(bytes, at + 1, at + 3));
        *skip_bytes = at + 3;
        Some(n as u64)
    } else if first == U32_MARKER && available >= 5 {
        let n: u32 = u32_from_le_bytes(slice_subrange(bytes, at + 1, at + 5));
        *skip_bytes = at + 5;
        Some(n as u64)
    } else if first == U64_MARKER && available >= 9 {
        let n: u64 = u64_from_le_bytes(slice_subrange(bytes, at + 1, at + 9));
        *skip_bytes = at + 9;
        Some(n)
    } else {
        None
    }
}

/// The number of items of a sequence in the fixed layout, or `None` where
/// `bytes` is no such sequence: where the count that the first eight bytes
/// announce does not account for every byte behind them.
pub fn bincode_vec_fixint_len(bytes: &[u8]) -> (len: Option<usize>)
    ensures
        match len {
            Some(n) => read_fixed_vec(bytes@) matches Some(ids) && ids.len() == n,
            None => read_fixed_vec(bytes@) is None,
        },
{
    if bytes.len() < FIXED_WIDTH {
        return None;
    }
    let count: u64 = u64_from_le_bytes(slice_subrange(bytes, 0, FIXED_WIDTH));
    let rest: usize = bytes.len() - FIXED_WIDTH;
    if rest % FIXED_WIDTH == 0 && (rest / FIXED_WIDTH) as u64 == count {
        Some(rest / FIXED_WIDTH)
    } else {
        None
    }
}

/// The item at `index` of a sequence in the fixed layout, or `None` where
/// `bytes` is no such sequence or has no item at `index`.
pub fn bincode_vec_fixint_item(bytes: &[u8], index: usize) -> (item: Option<u64>)
    ensures
        item == (match read_fixed_vec(bytes@) {
            Some(ids) => if index < ids.len() {
                Some(ids[index as int])
            } else {
                None
            },
            None => None,
        }),
{
    match bincode_vec_fixint_len(bytes) {
        None => None,
        Some(len) => {
            if index < len {
                proof {
                    let ids = read_fixed_vec(bytes@).unwrap();
                    assert(bytes@.len() == 8 + 8 * ids.len());
                    assert(bytes@.len() == bytes.len());
                    assert(ids[index as int] == fixed_item(bytes@, index as int));
                }
                let from: usize = FIXED_WIDTH + FIXED_WIDTH * index;
                Some(u64_from_le_bytes(slice_subrange(bytes, from, from + FIXED_WIDTH)))
            } else {
                None
            }
        },
    }
}

} // verus!
