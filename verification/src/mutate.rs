//! The mutator: rewrites the change list of a journal to model harsher
//! storage, where syncs are lost, large writes land in pieces, and a write
//! may leave zeros behind.

use crate::journal::{change_in_bounds, changes_in_bounds, Change, ChangeView, Journal};
use vstd::prelude::*;
use vstd::slice::{slice_subrange, slice_to_vec};

verus! {

/// The size of the pieces that a large write is split into.
pub const SPLIT_SIZE: usize = 2048;

/// What the mutator is to do.
#[derive(Debug, Clone, Copy)]
pub struct MutateOpt {
    /// Discard Sync operations
    pub drop_sync: bool,
    /// Split large writes into 2048-byte ones
    pub split_write: bool,
    /// Insert Write operations with zeros
    pub zero_fill: bool,
}

/// `n` zero bytes.
pub open spec fn zeros(n: nat) -> Seq<u8> {
    Seq::new(n, |i: int| 0u8)
}

/// Whether some byte of `data` is not zero.
pub open spec fn has_nonzero(data: Seq<u8>) -> bool {
    exists|i: int| 0 <= i < data.len() && data[i] != 0
}

/// How many pieces a write of `len` bytes is split into.
pub open spec fn piece_count(len: nat) -> nat {
    ((len + SPLIT_SIZE - 1) / (SPLIT_SIZE as int)) as nat
}

/// The `k`-th piece of a write: up to 2048 bytes of the payload from
/// `k * 2048` on, written that far behind the offset of the whole.
pub open spec fn piece(offset: nat, data: Seq<u8>, k: int) -> ChangeView {
    let from = k * SPLIT_SIZE;
    let to = if from + SPLIT_SIZE < data.len() {
        from + SPLIT_SIZE
    } else {
        data.len() as int
    };
    ChangeView::Write { offset: (offset + from) as nat, data: data.subrange(from, to) }
}

/// A write as a run of pieces that cover its payload.
pub open spec fn pieces(offset: nat, data: Seq<u8>) -> Seq<ChangeView> {
    Seq::new(piece_count(data.len()), |k: int| piece(offset, data, k))
}

/// What the mutator makes of one change.
///
/// A sync stays unless syncs are dropped. A write is preceded by a write of
/// as many zeros to the same place, if zeros are to be filled in and the
/// payload is not all zeros already. The write itself is split into pieces
/// if writes are to be split and it is longer than one piece, and stays as
/// it is otherwise.
pub open spec fn mutated_change(change: ChangeView, opt: MutateOpt) -> Seq<ChangeView> {
    match change {
        ChangeView::Sync => if opt.drop_sync {
            Seq::empty()
        } else {
            seq![ChangeView::Sync]
        },
        ChangeView::Write { offset, data } => {
            let filled = if opt.zero_fill && has_nonzero(data) {
                seq![ChangeView::Write { offset, data: zeros(data.len()) }]
            } else {
                Seq::empty()
            };
            let written = if opt.split_write && data.len() > SPLIT_SIZE {
                pieces(offset, data)
            } else {
                seq![change]
            };
            filled + written
        },
    }
}

/// What the mutator makes of a change list: what it makes of each change,
/// in order.
pub open spec fn mutated(changes: Seq<ChangeView>, opt: MutateOpt) -> Seq<ChangeView>
    decreases changes.len(),
{
    if changes.len() == 0 {
        Seq::empty()
    } else {
        mutated(changes.drop_last(), opt) + mutated_change(changes.last(), opt)
    }
}

/// Whether the end of a write can be told in 64 bits.
pub open spec fn end_fits(change: ChangeView) -> bool {
    match change {
        ChangeView::Write { offset, data } => offset + data.len() <= u64::MAX,
        ChangeView::Sync => true,
    }
}

/// Whether the end of every write of `changes` can be told in 64 bits.
pub fn ends_fit(changes: &Vec<Change>) -> (ok: bool)
    ensures
        ok == forall|i: int|
            0 <= i < changes@.len() ==> end_fits(#[trigger] changes.deep_view()[i]),
{
    let ghost all = changes.deep_view();
    let mut i: usize = 0;
    while i < changes.len()
        invariant
            i <= changes.len(),
            all == changes.deep_view(),
            forall|j: int| 0 <= j < i ==> end_fits(#[trigger] all[j]),
        decreases changes.len() - i,
    {
        assert(all[i as int] == changes@[i as int]@);
        match &changes[i] {
            Change::Write { offset, data } => {
                if data.len() as u64 > u64::MAX - *offset {
                    return false;
                }
            },
            Change::Sync => {},
        }
        i += 1;
    }
    true
}

/// Whether some byte of `data` is not zero.
pub fn any_nonzero(data: &Vec<u8>) -> (found: bool)
    ensures
        found == has_nonzero(data@),
{
    let mut i: usize = 0;
    while i < data.len()
        invariant
            i <= data.len(),
            forall|j: int| 0 <= j < i ==> data@[j] == 0,
        decreases data.len() - i,
    {
        if data[i] != 0 {
            return true;
        }
        i += 1;
    }
    false
}

/// A buffer of `n` zero bytes.
pub fn zero_bytes(n: usize) -> (bytes: Vec<u8>)
    ensures
        bytes@ == zeros(n as nat),
{
    let mut bytes: Vec<u8> = Vec::new();
    let mut i: usize = 0;
    while i < n
        invariant
            i <= n,
            bytes@ == zeros(i as nat),
        decreases n - i,
    {
        bytes.push(0);
        i += 1;
    }
    bytes
}

/// Rewrites the change list of `journal` as `opt` says. The initial data
/// stays as it is.
pub fn mutate_journal(journal: &mut Journal, opt: &MutateOpt)
    requires
        forall|i: int|
            0 <= i < old(journal).changes@.len() ==> end_fits(
                #[trigger] old(journal).changes.deep_view()[i],
            ),
    ensures
        final(journal).changes.deep_view() == mutated(old(journal).changes.deep_view(), *opt),
        final(journal).initial_data == old(journal).initial_data,
        old(journal).wf() ==> final(journal).wf(),
{
    let mut new_changes: Vec<Change> = Vec::new();
    let ghost given = journal.changes.deep_view();
    let ghost size = journal.initial_data@.len();
    let count = journal.changes.len();
    let mut i: usize = 0;
    while i < count
        invariant
            i <= count,
            count == journal.changes.len(),
            given == journal.changes.deep_view(),
            forall|j: int| 0 <= j < given.len() ==> end_fits(#[trigger] given[j]),
            new_changes.deep_view() == mutated(given.take(i as int), *opt),
            changes_in_bounds(given, size) ==> changes_in_bounds(new_changes.deep_view(), size),
        decreases count - i,
    {
        let ghost before = new_changes.deep_view();
        assert(given.take(i + 1).drop_last() =~= given.take(i as int));
        match &journal.changes[i] {
            Change::Sync => {
                if !opt.drop_sync {
                    new_changes.push(Change::Sync);
                }
                assert(new_changes.deep_view() =~= before + mutated_change(ChangeView::Sync, *opt));
            },
            Change::Write { offset, data } => {
                let ghost whole = ChangeView::Write { offset: *offset as nat, data: data@ };
                if opt.zero_fill && any_nonzero(data) {
                    new_changes.push(
                        Change::Write { offset: *offset, data: zero_bytes(data.len()) },
                    );
                }
                let ghost filled = new_changes.deep_view();
                assert(filled =~= before + if opt.zero_fill && has_nonzero(data@) {
                    seq![ChangeView::Write { offset: *offset as nat, data: zeros(data@.len()) }]
                } else {
                    Seq::<ChangeView>::empty()
                });
                if opt.split_write && data.len() > SPLIT_SIZE {
                    let mut data_offset: usize = 0;
                    let ghost mut k: int = 0;
                    while data_offset < data.len()
                        invariant
                            data_offset <= data.len(),
                            data_offset < data.len() ==> data_offset == k * SPLIT_SIZE,
                            0 <= k <= piece_count(data@.len()),
                            data_offset == data.len() ==> k == piece_count(data@.len()),
                            *offset + data@.len() <= u64::MAX,
                            new_changes.deep_view() == filled + pieces(
                                *offset as nat,
                                data@,
                            ).take(k),
                        decreases data.len() - data_offset,
                    {
                        let end = if data.len() - data_offset > SPLIT_SIZE {
                            data_offset + SPLIT_SIZE
                        } else {
                            data.len()
                        };
                        let sub = slice_to_vec(slice_subrange(data.as_slice(), data_offset, end));
                        let ghost pushed = new_changes.deep_view();
                        new_changes.push(
                            Change::Write { offset: *offset + data_offset as u64, data: sub },
                        );
                        proof {
                            let all = pieces(*offset as nat, data@);
                            assert(new_changes.deep_view() =~= pushed.push(all[k]));
                            k = k + 1;
                        }
                        data_offset = end;
                    }
                } else {
                    new_changes.push(
                        Change::Write { offset: *offset, data: slice_to_vec(data.as_slice()) },
                    );
                    assert(new_changes.deep_view() =~= filled + seq![whole]);
                }
            },
        }
        i += 1;
    }
    assert(given.take(count as int) =~= given);
    journal.changes = new_changes;
}

/// The mutator works change by change: what it makes of two lists in a row
/// is what it makes of the first followed by what it makes of the second.
pub proof fn lemma_mutated_concat(a: Seq<ChangeView>, b: Seq<ChangeView>, opt: MutateOpt)
    ensures
        mutated(a + b, opt) == mutated(a, opt) + mutated(b, opt),
    decreases b.len(),
{
    if b.len() > 0 {
        lemma_mutated_concat(a, b.drop_last(), opt);
        assert((a + b).drop_last() =~= a + b.drop_last());
    }
}

/// A list of changes that the mutator each leaves alone is left alone as a
/// whole.
pub proof fn lemma_mutated_fixed(changes: Seq<ChangeView>, opt: MutateOpt)
    requires
        forall|i: int|
            0 <= i < changes.len() ==> mutated_change(#[trigger] changes[i], opt) == seq![
                changes[i],
            ],
    ensures
        mutated(changes, opt) == changes,
    decreases changes.len(),
{
    if changes.len() > 0 {
        lemma_mutated_fixed(changes.drop_last(), opt);
    }
}

/// Mutating twice is mutating once, as long as no zeros are filled in. This
/// holds of dropping syncs, of splitting writes, and of both together.
pub proof fn lemma_mutate_idempotent(changes: Seq<ChangeView>, opt: MutateOpt)
    requires
        !opt.zero_fill,
    ensures
        mutated(mutated(changes, opt), opt) == mutated(changes, opt),
    decreases changes.len(),
{
    if changes.len() > 0 {
        let rest = mutated(changes.drop_last(), opt);
        let added = mutated_change(changes.last(), opt);
        lemma_mutate_idempotent(changes.drop_last(), opt);
        lemma_mutated_concat(rest, added, opt);
        assert forall|i: int| 0 <= i < added.len() implies mutated_change(#[trigger] added[i], opt)
            == seq![added[i]] by {}
        lemma_mutated_fixed(added, opt);
    }
}

} // verus!
