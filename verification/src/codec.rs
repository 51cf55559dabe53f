//! The stored form of a change list.
//!
//! Numbers are stored in groups of seven bits, the lowest group first, one
//! group to a byte; the top bit of a byte says that another group follows.
//! A change list is its length, then its changes. A change is its tag, 0
//! for a write and 1 for a sync; a write goes on with its offset, the
//! length of its payload, and the payload as it is.

use crate::errors::{Error, ErrorKind};
use crate::journal::{Change, ChangeView};
use vstd::prelude::*;
use vstd::slice::{slice_subrange, slice_to_vec};

verus! {

/// The tag of a write.
pub const TAG_WRITE: u64 = 0;

/// The tag of a sync.
pub const TAG_SYNC: u64 = 1;

/// The stored form of a number.
pub open spec fn varint(n: nat) -> Seq<u8>
    decreases n,
{
    if n < 128 {
        seq![n as u8]
    } else {
        seq![(n % 128 + 128) as u8] + varint(n / 128)
    }
}

/// The stored form of a change.
pub open spec fn encoded_change(change: ChangeView) -> Seq<u8> {
    match change {
        ChangeView::Write { offset, data } => varint(TAG_WRITE as nat) + varint(offset) + varint(
            data.len(),
        ) + data,
        ChangeView::Sync => varint(TAG_SYNC as nat),
    }
}

/// The stored forms of the changes of a list, one after the other.
pub open spec fn encoded_list(changes: Seq<ChangeView>) -> Seq<u8>
    decreases changes.len(),
{
    if changes.len() == 0 {
        Seq::empty()
    } else {
        encoded_change(changes.first()) + encoded_list(changes.drop_first())
    }
}

/// The stored form of a change list.
pub open spec fn encoded_changes(changes: Seq<ChangeView>) -> Seq<u8> {
    varint(changes.len()) + encoded_list(changes)
}

/// What a number may be at most, plus one, when `groups` groups of seven
/// bits have been read before it: in all a number must fit in 64 bits.
pub open spec fn group_limit(groups: nat) -> nat
    decreases 9 - groups,
{
    if groups >= 9 {
        2
    } else {
        128 * group_limit(groups + 1)
    }
}

/// Reads the number stored from position `at` on, given that `groups`
/// groups of it have been read already. The result is the number and the
/// position behind it; `None` if the bytes end within the number or the
/// number does not fit in 64 bits. The tenth group is the last and may be 0
/// or 1 only.
pub open spec fn read_groups(bytes: Seq<u8>, at: int, groups: nat) -> Option<(nat, int)>
    decreases bytes.len() - at,
{
    if at < 0 || at >= bytes.len() {
        None
    } else if groups >= 9 && bytes[at] != 0 && bytes[at] != 1 {
        None
    } else if bytes[at] < 128 {
        Some((bytes[at] as nat, at + 1))
    } else {
        match read_groups(bytes, at + 1, groups + 1) {
            None => None,
            Some((rest, end)) => Some(((bytes[at] - 128 + 128 * rest) as nat, end)),
        }
    }
}

/// Reads the number stored at position `at`.
pub open spec fn read_varint(bytes: Seq<u8>, at: int) -> Option<(nat, int)> {
    read_groups(bytes, at, 0)
}

/// Reads the change stored at position `at`: the change and the position
/// behind it, or `None` if what is stored there is no change.
pub open spec fn read_change(bytes: Seq<u8>, at: int) -> Option<(ChangeView, int)> {
    match read_varint(bytes, at) {
        None => None,
        Some((tag, after_tag)) => if tag == TAG_SYNC {
            Some((ChangeView::Sync, after_tag))
        } else if tag == TAG_WRITE {
            match read_varint(bytes, after_tag) {
                None => None,
                Some((offset, after_offset)) => match read_varint(bytes, after_offset) {
                    None => None,
                    Some((len, start)) => if start + len <= bytes.len() {
                        Some(
                            (
                                ChangeView::Write {
                                    offset,
                                    data: bytes.subrange(start, start + len),
                                },
                                start + len,
                            ),
                        )
                    } else {
                        None
                    },
                },
            }
        } else {
            None
        },
    }
}

/// Reads `count` changes stored from position `at` on.
pub open spec fn read_list(bytes: Seq<u8>, at: int, count: nat) -> Option<Seq<ChangeView>>
    decreases count,
{
    if count == 0 {
        Some(Seq::empty())
    } else {
        match read_change(bytes, at) {
            None => None,
            Some((change, next)) => match read_list(bytes, next, (count - 1) as nat) {
                None => None,
                Some(rest) => Some(seq![change] + rest),
            },
        }
    }
}

/// The change list that `bytes` is the stored form of, or `None` if it is
/// none. Bytes behind the last change are passed over.
pub open spec fn decoded_changes(bytes: Seq<u8>) -> Option<Seq<ChangeView>> {
    match read_varint(bytes, 0) {
        None => None,
        Some((count, start)) => read_list(bytes, start, count),
    }
}

/// The limits, written out: 2^64 where nothing has been read yet, a
/// 128th of the limit before at each further group, and 2 for the tenth.
proof fn lemma_group_limit()
    ensures
        group_limit(0) == 0x1_0000_0000_0000_0000,
        forall|k: nat| k <= 9 ==> #[trigger] group_limit(k) <= 0x1_0000_0000_0000_0000,
        forall|k: nat| k < 9 ==> #[trigger] group_limit(k) == 128 * group_limit(k + 1),
        forall|k: nat| k >= 9 ==> #[trigger] group_limit(k) == 2,
{
    reveal_with_fuel(group_limit, 11);
    assert forall|k: nat| k <= 9 implies #[trigger] group_limit(k) <= 0x1_0000_0000_0000_0000 by {
        assert(k == 0 || k == 1 || k == 2 || k == 3 || k == 4 || k == 5 || k == 6 || k == 7 || k
            == 8 || k == 9);
    }
}

/// A number that is read stays below the limit for its place.
proof fn lemma_read_groups_bound(bytes: Seq<u8>, at: int, groups: nat)
    requires
        read_groups(bytes, at, groups) is Some,
    ensures
        read_groups(bytes, at, groups) matches Some((value, end)) && value < group_limit(groups)
            && at < end <= bytes.len(),
    decreases bytes.len() - at,
{
    lemma_group_limit();
    if bytes[at] >= 128 {
        lemma_read_groups_bound(bytes, at + 1, groups + 1);
    }
}

/// Appends the stored form of `n` to `out`.
pub fn put_varint(out: &mut Vec<u8>, n: u64)
    ensures
        final(out)@ == old(out)@ + varint(n as nat),
{
    let mut rest = n;
    let ghost mut emitted: Seq<u8> = Seq::empty();
    while rest >= 128
        invariant
            out@ == old(out)@ + emitted,
            emitted + varint(rest as nat) == varint(n as nat),
        decreases rest,
    {
        let byte = (rest % 128 + 128) as u8;
        out.push(byte);
        proof {
            emitted = emitted.push(byte);
        }
        rest = rest / 128;
    }
    out.push(rest as u8);
}

/// Reads the number stored in `bytes` at position `at`: the number and the
/// position behind it.
pub fn get_varint(bytes: &[u8], at: usize) -> (read: Option<(u64, usize)>)
    ensures
        match read {
            None => read_varint(bytes@, at as int) is None,
            Some((n, end)) => read_varint(bytes@, at as int) == Some((n as nat, end as int)),
        },
{
    get_groups(bytes, at, 0)
}

/// Reads the number stored at position `at`, of which `groups` groups have
/// been read already.
fn get_groups(bytes: &[u8], at: usize, groups: u8) -> (read: Option<(u64, usize)>)
    ensures
        match read {
            None => read_groups(bytes@, at as int, groups as nat) is None,
            Some((n, end)) => read_groups(bytes@, at as int, groups as nat) == Some(
                (n as nat, end as int),
            ),
        },
    decreases bytes@.len() - at,
{
    if at >= bytes.len() {
        return None;
    }
    let byte = bytes[at];
    if groups >= 9 && byte != 0 && byte != 1 {
        return None;
    }
    if byte < 128 {
        return Some((byte as u64, at + 1));
    }
    proof {
        lemma_group_limit();
    }
    match get_groups(bytes, at + 1, groups + 1) {
        None => None,
        Some((rest, end)) => {
            proof {
                lemma_read_groups_bound(bytes@, at + 1, (groups + 1) as nat);
            }
            Some(((byte - 128) as u64 + 128 * rest, end))
        },
    }
}

/// Appends the stored form of `change` to `out`.
pub fn put_change(out: &mut Vec<u8>, change: &Change)
    ensures
        final(out)@ == old(out)@ + encoded_change(change@),
{
    match change {
        Change::Write { offset, data } => {
            put_varint(out, TAG_WRITE);
            put_varint(out, *offset);
            put_varint(out, data.len() as u64);
            let ghost head = out@;
            let mut i: usize = 0;
            while i < data.len()
                invariant
                    i <= data.len(),
                    out@ == head + data@.take(i as int),
                decreases data.len() - i,
            {
                out.push(data[i]);
                i += 1;
            }
        },
        Change::Sync => {
            put_varint(out, TAG_SYNC);
        },
    }
}

/// The stored form of a list with one more change is that of the list
/// followed by that of the change.
proof fn lemma_encoded_list_push(changes: Seq<ChangeView>, change: ChangeView)
    ensures
        encoded_list(changes.push(change)) == encoded_list(changes) + encoded_change(change),
    decreases changes.len(),
{
    let all = changes.push(change);
    if changes.len() == 0 {
        assert(all.drop_first() =~= changes);
    } else {
        lemma_encoded_list_push(changes.drop_first(), change);
        assert(all.drop_first() =~= changes.drop_first().push(change));
    }
}

/// The stored form of a change list. Read again, it gives the list back.
pub fn encode_changes(changes: &Vec<Change>) -> (bytes: Vec<u8>)
    ensures
        bytes@ == encoded_changes(changes.deep_view()),
        decoded_changes(bytes@) == Some(changes.deep_view()),
{
    let mut bytes: Vec<u8> = Vec::new();
    put_varint(&mut bytes, changes.len() as u64);
    let ghost all = changes.deep_view();
    let ghost head = bytes@;
    let mut i: usize = 0;
    while i < changes.len()
        invariant
            i <= changes.len(),
            all == changes.deep_view(),
            bytes@ == head + encoded_list(all.take(i as int)),
        decreases changes.len() - i,
    {
        put_change(&mut bytes, &changes[i]);
        proof {
            lemma_encoded_list_push(all.take(i as int), all[i as int]);
            assert(all.take(i + 1) =~= all.take(i as int).push(all[i as int]));
        }
        i += 1;
    }
    proof {
        assert(all.take(changes.len() as int) =~= all);
        lemma_changes_storable(*changes);
        lemma_round_trip(all, Seq::empty());
        assert(bytes@ + Seq::<u8>::empty() =~= bytes@);
    }
    bytes
}

/// Reads the change stored in `bytes` at position `at`: the change and the
/// position behind it.
pub fn get_change(bytes: &[u8], at: usize) -> (read: Option<(Change, usize)>)
    ensures
        match read {
            None => read_change(bytes@, at as int) is None,
            Some((change, end)) => read_change(bytes@, at as int) == Some((change@, end as int)),
        },
{
    let (tag, after_tag) = match get_varint(bytes, at) {
        None => {
            return None;
        },
        Some(read) => read,
    };
    if tag == TAG_SYNC {
        return Some((Change::Sync, after_tag));
    }
    if tag != TAG_WRITE {
        return None;
    }
    let (offset, after_offset) = match get_varint(bytes, after_tag) {
        None => {
            return None;
        },
        Some(read) => read,
    };
    let (len, start) = match get_varint(bytes, after_offset) {
        None => {
            return None;
        },
        Some(read) => read,
    };
    proof {
        lemma_read_groups_bound(bytes@, after_offset as int, 0);
    }
    if len > (bytes.len() - start) as u64 {
        return None;
    }
    let end = start + len as usize;
    let data = slice_to_vec(slice_subrange(bytes, start, end));
    Some((Change::Write { offset, data }, end))
}

/// Reads a change list from its stored form. Bytes that are no such form
/// are refused as invalid data; bytes behind the last change are passed
/// over.
pub fn decode_changes(bytes: &[u8]) -> (decoded: Result<Vec<Change>, Error>)
    ensures
        match decoded {
            Ok(changes) => decoded_changes(bytes@) == Some(changes.deep_view()),
            Err(error) => decoded_changes(bytes@) is None && error.kind == ErrorKind::InvalidData
                && error.message@ == "invalid changes data"@,
        },
{
    let (count, start) = match get_varint(bytes, 0) {
        None => {
            return Err(Error::new(ErrorKind::InvalidData, "invalid changes data"));
        },
        Some(read) => read,
    };
    let mut changes: Vec<Change> = Vec::new();
    let mut at = start;
    let mut i: u64 = 0;
    while i < count
        invariant
            i <= count,
            read_varint(bytes@, 0) == Some((count as nat, start as int)),
            read_list(bytes@, start as int, count as nat) == match read_list(
                bytes@,
                at as int,
                (count - i) as nat,
            ) {
                None => None,
                Some(rest) => Some(changes.deep_view() + rest),
            },
        decreases count - i,
    {
        let ghost before = changes.deep_view();
        match get_change(bytes, at) {
            None => {
                return Err(Error::new(ErrorKind::InvalidData, "invalid changes data"));
            },
            Some((change, next)) => {
                changes.push(change);
                proof {
                    let rest = read_list(bytes@, next as int, (count - i - 1) as nat);
                    if rest is Some {
                        assert(before + (seq![change@] + rest->0) =~= changes.deep_view()
                            + rest->0);
                    }
                }
                at = next;
            },
        }
        i += 1;
    }
    Ok(changes)
}

/// Whether `piece` stands in `bytes` at position `at`.
pub open spec fn stands_at(bytes: Seq<u8>, at: int, piece: Seq<u8>) -> bool {
    &&& 0 <= at
    &&& at + piece.len() <= bytes.len()
    &&& forall|i: int| 0 <= i < piece.len() ==> bytes[at + i] == #[trigger] piece[i]
}

/// Where two pieces stand in a row, each stands at its place.
proof fn lemma_stands_at_split(bytes: Seq<u8>, at: int, a: Seq<u8>, b: Seq<u8>)
    requires
        stands_at(bytes, at, a + b),
    ensures
        stands_at(bytes, at, a),
        stands_at(bytes, at + a.len(), b),
{
    assert forall|i: int| 0 <= i < a.len() implies bytes[at + i] == #[trigger] a[i] by {
        assert((a + b)[i] == a[i]);
    }
    assert forall|i: int| 0 <= i < b.len() implies bytes[at + a.len() + i] == #[trigger] b[i] by {
        assert((a + b)[a.len() + i] == b[i]);
    }
}

/// Where the stored form of a number stands, that number is read.
proof fn lemma_read_stored_varint(bytes: Seq<u8>, at: int, n: nat, groups: nat)
    requires
        n < group_limit(groups),
        groups <= 9,
        stands_at(bytes, at, varint(n)),
    ensures
        read_groups(bytes, at, groups) == Some((n, at + varint(n).len())),
    decreases n,
{
    assert(bytes[at + 0] == varint(n)[0]);
    if n >= 128 {
        lemma_stands_at_split(bytes, at, seq![(n % 128 + 128) as u8], varint(n / 128));
        lemma_read_stored_varint(bytes, at + 1, n / 128, groups + 1);
    }
}

/// Whether a change can be stored: its offset and the length of its
/// payload fit in 64 bits.
pub open spec fn storable(change: ChangeView) -> bool {
    match change {
        ChangeView::Write { offset, data } => offset <= u64::MAX && data.len() <= u64::MAX,
        ChangeView::Sync => true,
    }
}

/// Where the stored form of a change stands, that change is read.
proof fn lemma_read_stored_change(bytes: Seq<u8>, at: int, change: ChangeView)
    requires
        storable(change),
        stands_at(bytes, at, encoded_change(change)),
    ensures
        read_change(bytes, at) == Some((change, at + encoded_change(change).len())),
{
    lemma_group_limit();
    match change {
        ChangeView::Sync => {
            lemma_read_stored_varint(bytes, at, TAG_SYNC as nat, 0);
        },
        ChangeView::Write { offset, data } => {
            let tag = varint(TAG_WRITE as nat);
            let place = varint(offset);
            let size = varint(data.len());
            assert(encoded_change(change) =~= tag + (place + (size + data)));
            lemma_stands_at_split(bytes, at, tag, place + (size + data));
            lemma_stands_at_split(bytes, at + tag.len(), place, size + data);
            lemma_stands_at_split(bytes, at + tag.len() + place.len(), size, data);
            lemma_read_stored_varint(bytes, at, TAG_WRITE as nat, 0);
            lemma_read_stored_varint(bytes, at + tag.len(), offset, 0);
            lemma_read_stored_varint(bytes, at + tag.len() + place.len(), data.len(), 0);
            let start = at + tag.len() + place.len() + size.len();
            assert(bytes.subrange(start, start + data.len()) =~= data);
        },
    }
}

/// Where the stored forms of the changes of a list stand one after the
/// other, that list is read.
proof fn lemma_read_stored_list(bytes: Seq<u8>, at: int, changes: Seq<ChangeView>)
    requires
        forall|i: int| 0 <= i < changes.len() ==> storable(#[trigger] changes[i]),
        stands_at(bytes, at, encoded_list(changes)),
    ensures
        read_list(bytes, at, changes.len()) == Some(changes),
    decreases changes.len(),
{
    if changes.len() > 0 {
        let first = changes.first();
        let rest = changes.drop_first();
        lemma_stands_at_split(bytes, at, encoded_change(first), encoded_list(rest));
        lemma_read_stored_change(bytes, at, first);
        lemma_read_stored_list(bytes, at + encoded_change(first).len(), rest);
        assert(seq![first] + rest =~= changes);
    }
}

/// Reading the stored form of a change list gives that list again, byte
/// for byte, whatever stands behind it.
pub proof fn lemma_round_trip(changes: Seq<ChangeView>, behind: Seq<u8>)
    requires
        changes.len() <= u64::MAX,
        forall|i: int| 0 <= i < changes.len() ==> storable(#[trigger] changes[i]),
    ensures
        decoded_changes(encoded_changes(changes) + behind) == Some(changes),
{
    lemma_group_limit();
    let bytes = encoded_changes(changes) + behind;
    let all = varint(changes.len()) + encoded_list(changes);
    assert(stands_at(bytes, 0, all));
    lemma_read_stored_varint(bytes, 0, changes.len(), 0);
    lemma_read_stored_list(bytes, varint(changes.len()).len() as int, changes);
}

/// A change list in memory can always be stored.
pub proof fn lemma_changes_storable(changes: Vec<Change>)
    ensures
        changes.deep_view().len() <= u64::MAX,
        forall|i: int|
            0 <= i < changes.deep_view().len() ==> storable(#[trigger] changes.deep_view()[i]),
{
    assert(changes.deep_view().len() == changes.len());
    assert forall|i: int| 0 <= i < changes.deep_view().len() implies storable(
        #[trigger] changes.deep_view()[i],
    ) by {
        let change = changes@[i];
        match change {
            Change::Write { offset, data } => {
                assert(data@.len() == data.len());
            },
            Change::Sync => {},
        }
    }
}

} // verus!
