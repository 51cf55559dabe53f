//! The journal: an initial image, the changes made to it, and replay.

use crate::codec::{
    decode_changes, decoded_changes, encode_changes, encoded_changes, lemma_round_trip, storable,
};
use crate::errors::{Error, ErrorKind};
use crate::fs::FuseRecordFilesystem;
use crate::text::chars_of;
use std::rc::Rc;
use vstd::prelude::*;
use vstd::slice::slice_to_vec;
use vstd::string::StringExecFns;

verus! {

/// One recorded operation on the file.
#[derive(Debug, Clone, PartialEq, Eq, PartialOrd, Ord)]
pub enum Change {
    /// A "write" operation: `data` lands at `offset`.
    Write { offset: u64, data: Vec<u8> },
    /// A "fsync" operation.
    Sync,
}

/// The mathematical value of a [`Change`].
pub enum ChangeView {
    Write { offset: nat, data: Seq<u8> },
    Sync,
}

impl View for Change {
    type V = ChangeView;

    open spec fn view(&self) -> ChangeView {
        match *self {
            Change::Write { offset, data } => ChangeView::Write {
                offset: offset as nat,
                data: data@,
            },
            Change::Sync => ChangeView::Sync,
        }
    }
}

impl DeepView for Change {
    type V = ChangeView;

    open spec fn deep_view(&self) -> ChangeView {
        self@
    }
}

/// `image` with `data` copied over it from `offset` on. Bytes of `data`
/// that would fall past the end of `image` are not part of the result.
pub open spec fn write_at(image: Seq<u8>, offset: int, data: Seq<u8>) -> Seq<u8> {
    Seq::new(
        image.len(),
        |j: int| if offset <= j < offset + data.len() { data[j - offset] } else { image[j] },
    )
}

/// Whether a write lies entirely within an image of `len` bytes.
pub open spec fn change_in_bounds(change: ChangeView, len: nat) -> bool {
    match change {
        ChangeView::Write { offset, data } => offset + data.len() <= len,
        ChangeView::Sync => true,
    }
}

/// Whether every write of `changes` lies within an image of `len` bytes.
pub open spec fn changes_in_bounds(changes: Seq<ChangeView>, len: nat) -> bool {
    forall|i: int| 0 <= i < changes.len() ==> change_in_bounds(#[trigger] changes[i], len)
}

/// Whether the change at position `i` is taken. Without a filter every
/// change is; a filter decides for the positions it covers and skips the rest.
pub open spec fn takes(filter: Option<Seq<bool>>, i: int) -> bool {
    match filter {
        None => true,
        Some(bits) => 0 <= i < bits.len() && bits[i],
    }
}

/// The effect of one change on an image.
pub open spec fn apply_change(image: Seq<u8>, change: ChangeView, taken: bool) -> Seq<u8> {
    match change {
        ChangeView::Write { offset, data } if taken => write_at(image, offset as int, data),
        _ => image,
    }
}

/// The image after the first `n` changes, of which the filter takes some.
pub open spec fn replay_prefix(
    initial: Seq<u8>,
    changes: Seq<ChangeView>,
    filter: Option<Seq<bool>>,
    n: nat,
) -> Seq<u8>
    decreases n,
{
    if n == 0 {
        initial
    } else {
        apply_change(
            replay_prefix(initial, changes, filter, (n - 1) as nat),
            changes[n - 1],
            takes(filter, n - 1),
        )
    }
}

/// The image after all changes that the filter takes, applied in order.
pub open spec fn replay(
    initial: Seq<u8>,
    changes: Seq<ChangeView>,
    filter: Option<Seq<bool>>,
) -> Seq<u8> {
    replay_prefix(initial, changes, filter, changes.len())
}

/// Copies `data` over `image` from `offset` on.
pub fn overwrite(image: &mut Vec<u8>, offset: usize, data: &[u8])
    requires
        offset + data@.len() <= old(image)@.len(),
    ensures
        final(image)@ == write_at(old(image)@, offset as int, data@),
{
    let n = data.len();
    let mut k: usize = 0;
    while k < n
        invariant
            n == data@.len(),
            k <= n,
            offset + n <= image.len(),
            image@.len() == old(image)@.len(),
            forall|j: int|
                0 <= j < image@.len() ==> image@[j] == if offset <= j < offset + k {
                    data@[j - offset]
                } else {
                    old(image)@[j]
                },
        decreases n - k,
    {
        image.set(offset + k, data[k]);
        k += 1;
    }
}

/// Whether a character stands for a bit.
pub open spec fn is_bit_char(c: char) -> bool {
    c == '0' || c == '1'
}

/// Whether a text is made of the characters `0` and `1` only.
pub open spec fn all_bit_chars(text: Seq<char>) -> bool {
    forall|i: int| 0 <= i < text.len() ==> is_bit_char(#[trigger] text[i])
}

/// The bits that a text of `0` and `1` stands for: `1` is taken.
pub open spec fn bits_of(text: Seq<char>) -> Seq<bool> {
    Seq::new(text.len(), |i: int| text[i] == '1')
}

/// Whether a character is a decimal digit.
pub open spec fn is_digit_char(c: char) -> bool {
    '0' <= c <= '9'
}

/// Whether a text is made of decimal digits only.
pub open spec fn all_digit_chars(text: Seq<char>) -> bool {
    forall|i: int| 0 <= i < text.len() ==> is_digit_char(#[trigger] text[i])
}

/// The number that a text of decimal digits stands for.
pub open spec fn digits_value(text: Seq<char>) -> nat
    decreases text.len(),
{
    if text.len() == 0 {
        0
    } else {
        (10 * digits_value(text.drop_last()) + (text.last() as int - '0' as int)) as nat
    }
}

/// The largest count that may stand before the colon of a filter.
pub const MAX_LEADING: u64 = 0x7fff_ffff;

/// The count that stands before the colon of a filter: decimal digits, at
/// least one, with or without a `+` before them, and a value of at most
/// `MAX_LEADING`. `None` if the text is no such count.
pub open spec fn leading_count(text: Seq<char>) -> Option<nat> {
    let digits = if text.len() > 0 && text[0] == '+' {
        text.drop_first()
    } else {
        text
    };
    if digits.len() > 0 && all_digit_chars(digits) && digits_value(digits) <= MAX_LEADING {
        Some(digits_value(digits))
    } else {
        None
    }
}

/// The position of the first colon from `i` on, or the length of the text
/// if there is none.
pub open spec fn first_colon(text: Seq<char>, i: int) -> int
    decreases text.len() - i,
{
    if i < 0 || i >= text.len() {
        text.len() as int
    } else if text[i] == ':' {
        i
    } else {
        first_colon(text, i + 1)
    }
}

/// The filter that a text stands for, or `None` if it stands for none.
///
/// A text of `0` and `1` stands for those bits. With a count and a colon
/// before it, it stands for as many taken changes as the count says,
/// followed by those bits. The text without any character stands for the
/// filter without bits; that it means "no filter" on a command line is for
/// `chosen_filter` to say.
pub open spec fn parsed_filter(text: Seq<char>) -> Option<Seq<bool>> {
    let colon = first_colon(text, 0);
    if colon < text.len() {
        let count = leading_count(text.take(colon));
        let bits = text.skip(colon + 1);
        if count is Some && all_bit_chars(bits) {
            Some(Seq::new(count->0, |i: int| true) + bits_of(bits))
        } else {
            None
        }
    } else if all_bit_chars(text) {
        Some(bits_of(text))
    } else {
        None
    }
}

/// The value of a text of digits is at least that of any part it begins
/// with.
proof fn lemma_digits_value_grows(text: Seq<char>, n: int)
    requires
        0 <= n <= text.len(),
        all_digit_chars(text),
    ensures
        digits_value(text.take(n)) <= digits_value(text),
    decreases text.len() - n,
{
    if n < text.len() {
        lemma_digits_value_grows(text, n + 1);
        assert(text.take(n + 1).drop_last() =~= text.take(n));
    } else {
        assert(text.take(n) =~= text);
    }
}

/// Describe what changes to take and what to skip.
#[derive(Debug)]
pub struct ChangeFilter {
    should_take: Vec<bool>,
}

impl View for ChangeFilter {
    type V = Seq<bool>;

    closed spec fn view(&self) -> Seq<bool> {
        self.should_take@
    }
}

impl ChangeFilter {
    /// Whether the change at position `i` is taken: the stored bit, and
    /// `false` past the end of the filter.
    pub fn should_take(&self, i: usize) -> (taken: bool)
        ensures
            taken == takes(Some(self@), i as int),
    {
        i < self.should_take.len() && self.should_take[i]
    }

    /// Reads a filter from its text: bits as `0` and `1`, with or without a
    /// count and a colon before them. Any other text is refused as invalid
    /// input.
    #[verifier::loop_isolation(false)]
    pub fn parse(s: &str) -> (parsed: Result<ChangeFilter, Error>)
        ensures
            match parsed {
                Ok(filter) => parsed_filter(s@) == Some(filter@),
                Err(error) => parsed_filter(s@) is None && error.kind == ErrorKind::InvalidInput,
            },
    {
        let text = chars_of(s);
        let n = text.len();
        let mut colon: usize = 0;
        while colon < n && text[colon] != ':'
            invariant
                colon <= n,
                n == text@.len(),
                first_colon(text@, colon as int) == first_colon(text@, 0),
            decreases n - colon,
        {
            colon += 1;
        }
        let mut result: Vec<bool> = Vec::new();
        let bits_from = if colon < n {
            let count = match parse_count(&text, colon) {
                Ok(count) => count,
                Err(error) => {
                    return Err(error);
                },
            };
            let mut i: u64 = 0;
            while i < count
                invariant
                    i <= count,
                    result@ == Seq::new(i as nat, |k: int| true),
                decreases count - i,
            {
                result.push(true);
                i += 1;
            }
            colon + 1
        } else {
            0
        };
        let ghost leading = result@;
        let ghost bits = text@.skip(bits_from as int);
        let mut i: usize = bits_from;
        while i < n
            invariant
                bits_from <= i <= n,
                n == text@.len(),
                bits == text@.skip(bits_from as int),
                all_bit_chars(bits.take(i - bits_from)),
                result@ == leading + bits_of(bits.take(i - bits_from)),
            decreases n - i,
        {
            let ch = text[i];
            if ch == '1' {
                result.push(true);
            } else if ch == '0' {
                result.push(false);
            } else {
                assert(!is_bit_char(bits[i - bits_from]));
                let mut message = String::from_str("unexpected char: ");
                message.append(ch.to_string().as_str());
                return Err(Error { kind: ErrorKind::InvalidInput, message });
            }
            proof {
                let seen = bits.take(i - bits_from);
                let more = bits.take(i - bits_from + 1);
                assert(more.drop_last() =~= seen);
                assert(all_bit_chars(more)) by {
                    assert forall|k: int| 0 <= k < more.len() implies is_bit_char(
                        #[trigger] more[k],
                    ) by {
                        if k < seen.len() {
                            assert(more[k] == seen[k]);
                        }
                    }
                }
            }
            i += 1;
        }
        assert(bits.take(n - bits_from) =~= bits);
        if colon >= n {
            assert(bits =~= text@);
        }
        Ok(ChangeFilter { should_take: result })
    }
}

/// Reads the count that stands before the colon of a filter, from the
/// first `end` characters of `text`.
#[verifier::loop_isolation(false)]
fn parse_count(text: &Vec<char>, end: usize) -> (parsed: Result<u64, Error>)
    requires
        end <= text@.len(),
    ensures
        match parsed {
            Ok(count) => leading_count(text@.take(end as int)) == Some(count as nat),
            Err(error) => leading_count(text@.take(end as int)) is None && error.kind
                == ErrorKind::InvalidInput,
        },
{
    let ghost prefix = text@.take(end as int);
    let from: usize = if end > 0 && text[0] == '+' {
        1
    } else {
        0
    };
    let ghost digits = text@.subrange(from as int, end as int);
    assert(digits =~= if prefix.len() > 0 && prefix[0] == '+' {
        prefix.drop_first()
    } else {
        prefix
    });
    if from == end {
        return Err(Error::new(ErrorKind::InvalidInput, "cannot parse integer from empty string"));
    }
    let mut value: u64 = 0;
    let mut i: usize = from;
    while i < end
        invariant
            from <= i <= end <= text@.len(),
            digits == text@.subrange(from as int, end as int),
            all_digit_chars(digits.take(i - from)),
            value == digits_value(digits.take(i - from)),
            value <= MAX_LEADING,
        decreases end - i,
    {
        let ch = text[i];
        if !('0' <= ch && ch <= '9') {
            assert(!is_digit_char(digits[i - from]));
            return Err(Error::new(ErrorKind::InvalidInput, "invalid digit found in string"));
        }
        let digit = (ch as u64) - ('0' as u64);
        proof {
            let seen = digits.take(i - from);
            let more = digits.take(i - from + 1);
            assert(more.drop_last() =~= seen);
            assert(all_digit_chars(more)) by {
                assert forall|k: int| 0 <= k < more.len() implies is_digit_char(
                    #[trigger] more[k],
                ) by {
                    if k < seen.len() {
                        assert(more[k] == seen[k]);
                    }
                }
            }
        }
        value = value * 10 + digit;
        if value > MAX_LEADING {
            proof {
                if all_digit_chars(digits) {
                    lemma_digits_value_grows(digits, i - from + 1);
                }
            }
            return Err(
                Error::new(ErrorKind::InvalidInput, "number too large to fit in target type"),
            );
        }
        i += 1;
    }
    assert(digits.take(end - from) =~= digits);
    Ok(value)
}

impl std::str::FromStr for ChangeFilter {
    type Err = Error;

    /// Reads a filter from its text, as `ChangeFilter::parse` does.
    fn from_str(s: &str) -> (parsed: Result<Self, Error>)
        ensures
            match parsed {
                Ok(filter) => parsed_filter(s@) == Some(filter@),
                Err(error) => parsed_filter(s@) is None && error.kind == ErrorKind::InvalidInput,
            },
    {
        ChangeFilter::parse(s)
    }
}

/// The filter that a command line asks for: none for an empty text, else
/// the filter that the text stands for. `None` if the text stands for no
/// filter.
pub open spec fn chosen_filter(text: Seq<char>) -> Option<Option<Seq<bool>>> {
    if text.len() == 0 {
        Some(None)
    } else {
        match parsed_filter(text) {
            Some(bits) => Some(Some(bits)),
            None => None,
        }
    }
}

/// Reads the filter that a command line gives. An empty text means that
/// there is no filter, so that every change is taken.
pub fn parse_filter(filter: &str) -> (parsed: Result<Option<ChangeFilter>, Error>)
    ensures
        match parsed {
            Ok(None) => chosen_filter(filter@) == Some(None::<Seq<bool>>),
            Ok(Some(chosen)) => chosen_filter(filter@) == Some(Some(chosen@)),
            Err(error) => chosen_filter(filter@) is None && error.kind == ErrorKind::InvalidInput,
        },
{
    if filter.is_empty() {
        Ok(None)
    } else {
        match ChangeFilter::parse(filter) {
            Ok(f) => Ok(Some(f)),
            Err(error) => Err(error),
        }
    }
}

/// The value of an optional filter.
pub open spec fn filter_view(filter: Option<&ChangeFilter>) -> Option<Seq<bool>> {
    match filter {
        None => None,
        Some(f) => Some(f@),
    }
}

/// Represent data and a list of changes to it.
#[derive(Debug, Clone)]
pub struct Journal {
    /// Initial data.
    pub initial_data: Rc<Vec<u8>>,
    /// Changes applied to the initial data.
    pub changes: Vec<Change>,
}

impl Journal {
    /// Every write lies within the initial image.
    pub open spec fn wf(&self) -> bool {
        changes_in_bounds(self.changes.deep_view(), self.initial_data@.len())
    }

    /// Create `Journal` using specified initial data.
    pub fn new(data: Vec<u8>) -> (journal: Self)
        ensures
            journal.initial_data@ == data@,
            journal.changes@.len() == 0,
            journal.wf(),
    {
        Self { initial_data: Rc::new(data), changes: Vec::new() }
    }

    /// Return data with changes applied: the initial image with every write
    /// that `filter` takes copied over it, in order.
    pub fn data(&self, filter: Option<&ChangeFilter>) -> (image: Vec<u8>)
        requires
            self.wf(),
        ensures
            image@ == replay(self.initial_data@, self.changes.deep_view(), filter_view(filter)),
            image@.len() == self.initial_data@.len(),
    {
        let mut image = slice_to_vec(self.initial_data.as_slice());
        let ghost changes = self.changes.deep_view();
        let ghost picked = filter_view(filter);
        let mut i: usize = 0;
        while i < self.changes.len()
            invariant
                i <= self.changes.len(),
                changes == self.changes.deep_view(),
                picked == filter_view(filter),
                changes_in_bounds(changes, self.initial_data@.len()),
                image@.len() == self.initial_data@.len(),
                image@ == replay_prefix(self.initial_data@, changes, picked, i as nat),
            decreases self.changes.len() - i,
        {
            let taken = match filter {
                None => true,
                Some(f) => f.should_take(i),
            };
            let change = &self.changes[i];
            assert(changes[i as int] == change@);
            if taken {
                match change {
                    Change::Write { offset, data } => {
                        assert(*offset + data@.len() <= image.len());
                        overwrite(&mut image, *offset as usize, data.as_slice());
                    },
                    Change::Sync => {},
                }
            }
            i += 1;
        }
        image
    }

    /// Whether every write lies within the initial image.
    pub fn is_well_formed(&self) -> (ok: bool)
        ensures
            ok == self.wf(),
    {
        let size = self.initial_data.len();
        let ghost changes = self.changes.deep_view();
        let mut i: usize = 0;
        while i < self.changes.len()
            invariant
                i <= self.changes.len(),
                size == self.initial_data@.len(),
                changes == self.changes.deep_view(),
                forall|j: int| 0 <= j < i ==> change_in_bounds(#[trigger] changes[j], size as nat),
            decreases self.changes.len() - i,
        {
            let change = &self.changes[i];
            assert(changes[i as int] == change@);
            match change {
                Change::Write { offset, data } => {
                    if *offset > size as u64 || data.len() > size - (*offset as usize) {
                        return false;
                    }
                },
                Change::Sync => {},
            }
            i += 1;
        }
        true
    }

    /// Collapses history: a journal whose initial data is this one's data
    /// with the changes that `filter` takes applied, and which has no
    /// changes.
    pub fn merge(&self, filter: Option<&ChangeFilter>) -> (merged: Journal)
        requires
            self.wf(),
        ensures
            merged.initial_data@ == replay(
                self.initial_data@,
                self.changes.deep_view(),
                filter_view(filter),
            ),
            merged.changes@.len() == 0,
            merged.wf(),
    {
        Journal::new(self.data(filter))
    }

    /// Mount as a single, fixed-sized file.
    ///
    /// The file starts out as the data with the changes that `filter` takes
    /// applied. Changes to that file are recorded in this journal: when the
    /// returned filesystem is gone, the journal holds them.
    pub fn mount(&mut self, filter: Option<&ChangeFilter>) -> (fs: FuseRecordFilesystem<'_>)
        requires
            old(self).wf(),
        ensures
            fs.image() == replay(
                old(self).initial_data@,
                old(self).changes.deep_view(),
                filter_view(filter),
            ),
            fs.recorded() == old(self).changes.deep_view(),
            *final(fs.changes) == final(self).changes,
            final(self).initial_data == old(self).initial_data,
    {
        let data = self.data(filter);
        FuseRecordFilesystem::new(data, &mut self.changes)
    }

    /// What has to be written so that the stored journal is this one.
    ///
    /// `base_stored` is what the base file holds, if it can be read, and
    /// `changes_stored` says whether there is a changes file. The base is
    /// written only where it differs. The changes are written if there are
    /// any, or if there is a file to overwrite.
    pub fn dump(&self, base_stored: Option<&[u8]>, changes_stored: bool) -> (plan: DumpPlan)
        ensures
            plan.base is None <==> stored_view(base_stored) == Some(self.initial_data@),
            plan.base matches Some(bytes) ==> bytes@ == self.initial_data@,
            plan.changes is Some <==> self.changes@.len() > 0 || changes_stored,
            plan.changes matches Some(bytes) ==> bytes@ == encoded_changes(
                self.changes.deep_view(),
            ) && decoded_changes(bytes@) == Some(self.changes.deep_view()),
    {
        let base = match base_stored {
            Some(stored) if same_bytes(stored, self.initial_data.as_slice()) => None,
            _ => Some(slice_to_vec(self.initial_data.as_slice())),
        };
        let changes = if self.changes.len() > 0 || changes_stored {
            Some(encode_changes(&self.changes))
        } else {
            None
        };
        DumpPlan { base, changes }
    }

    /// A journal from what is stored: the content of the base file, and
    /// that of the changes file if there is one. Without a changes file the
    /// journal has no changes. A changes file that does not hold a change
    /// list is refused as invalid data.
    pub fn load(base: Vec<u8>, changes_stored: Option<&[u8]>) -> (loaded: Result<Journal, Error>)
        ensures
            match loaded {
                Ok(journal) => loaded_view(Some(base@), stored_view(changes_stored)) == Some(
                    (journal.initial_data@, journal.changes.deep_view()),
                ),
                Err(error) => loaded_view(Some(base@), stored_view(changes_stored)) is None
                    && error.kind == ErrorKind::InvalidData && error.message@
                    == "invalid changes data"@,
            },
    {
        let changes = match changes_stored {
            Some(bytes) => match decode_changes(bytes) {
                Ok(changes) => changes,
                Err(error) => {
                    return Err(error);
                },
            },
            None => Vec::new(),
        };
        Ok(Journal { initial_data: Rc::new(base), changes })
    }
}

/// What `dump` found that has to be written: the new content of the base
/// file and of the changes file. `None` means that the file is left alone.
#[derive(Debug)]
pub struct DumpPlan {
    pub base: Option<Vec<u8>>,
    pub changes: Option<Vec<u8>>,
}

/// The content of a file that may or may not be there.
pub open spec fn stored_view(stored: Option<&[u8]>) -> Option<Seq<u8>> {
    match stored {
        None => None,
        Some(bytes) => Some(bytes@),
    }
}

/// What is stored after a dump of a journal, given what was stored before:
/// the base file and the changes file, `None` where there is no file.
pub open spec fn dumped_view(
    initial: Seq<u8>,
    changes: Seq<ChangeView>,
    changes_before: Option<Seq<u8>>,
) -> (Option<Seq<u8>>, Option<Seq<u8>>) {
    (
        Some(initial),
        if changes.len() > 0 || changes_before is Some {
            Some(encoded_changes(changes))
        } else {
            None
        },
    )
}

/// The journal that is loaded from what is stored: its initial data and
/// its changes. `None` if there is no base file, or the changes file holds
/// no change list.
pub open spec fn loaded_view(base: Option<Seq<u8>>, changes: Option<Seq<u8>>) -> Option<
    (Seq<u8>, Seq<ChangeView>),
> {
    match base {
        None => None,
        Some(initial) => match changes {
            None => Some((initial, Seq::empty())),
            Some(bytes) => match decoded_changes(bytes) {
                None => None,
                Some(list) => Some((initial, list)),
            },
        },
    }
}

/// Whether two buffers hold the same bytes.
fn same_bytes(a: &[u8], b: &[u8]) -> (same: bool)
    ensures
        same == (a@ == b@),
{
    if a.len() != b.len() {
        return false;
    }
    let mut i: usize = 0;
    while i < a.len()
        invariant
            i <= a.len(),
            a.len() == b.len(),
            forall|j: int| 0 <= j < i ==> a@[j] == b@[j],
        decreases a.len() - i,
    {
        if a[i] != b[i] {
            return false;
        }
        i += 1;
    }
    assert(a@ =~= b@);
    true
}

/// A dump followed by a load gives the journal back, in its initial data
/// and in its changes, whatever was stored before the dump.
pub proof fn lemma_dump_load(
    initial: Seq<u8>,
    changes: Seq<ChangeView>,
    changes_before: Option<Seq<u8>>,
)
    requires
        changes.len() <= u64::MAX,
        forall|i: int| 0 <= i < changes.len() ==> storable(#[trigger] changes[i]),
    ensures
        ({
            let (base, list) = dumped_view(initial, changes, changes_before);
            loaded_view(base, list) == Some((initial, changes))
        }),
{
    lemma_round_trip(changes, Seq::empty());
    assert(encoded_changes(changes) + Seq::<u8>::empty() =~= encoded_changes(changes));
}

/// A replay keeps the length of the initial data, whatever the changes and
/// the filter.
pub proof fn lemma_replay_len(initial: Seq<u8>, changes: Seq<ChangeView>, filter: Option<Seq<bool>>)
    ensures
        replay(initial, changes, filter).len() == initial.len(),
{
    lemma_replay_prefix_len(initial, changes, filter, changes.len());
}

/// A replay of some of the changes keeps the length of the initial data.
proof fn lemma_replay_prefix_len(
    initial: Seq<u8>,
    changes: Seq<ChangeView>,
    filter: Option<Seq<bool>>,
    n: nat,
)
    ensures
        replay_prefix(initial, changes, filter, n).len() == initial.len(),
    decreases n,
{
    if n > 0 {
        lemma_replay_prefix_len(initial, changes, filter, (n - 1) as nat);
    }
}

/// The replay of the first `n` changes does not depend on what follows
/// them.
pub proof fn lemma_replay_prefix_push(
    initial: Seq<u8>,
    changes: Seq<ChangeView>,
    added: ChangeView,
    filter: Option<Seq<bool>>,
    n: nat,
)
    requires
        n <= changes.len(),
    ensures
        replay_prefix(initial, changes.push(added), filter, n) == replay_prefix(
            initial,
            changes,
            filter,
            n,
        ),
    decreases n,
{
    if n > 0 {
        lemma_replay_prefix_push(initial, changes, added, filter, (n - 1) as nat);
    }
}

/// After a write is added to the changes, the data holds the payload where
/// it was written and is as before everywhere else.
pub proof fn lemma_append_write(
    initial: Seq<u8>,
    changes: Seq<ChangeView>,
    offset: nat,
    data: Seq<u8>,
)
    requires
        offset + data.len() <= initial.len(),
    ensures
        ({
            let before = replay(initial, changes, None);
            let after = replay(initial, changes.push(ChangeView::Write { offset, data }), None);
            &&& after == write_at(before, offset as int, data)
            &&& after.len() == before.len()
            &&& after.subrange(offset as int, offset as int + data.len()) == data
            &&& forall|j: int|
                0 <= j < after.len() && !(offset <= j < offset + data.len()) ==> after[j]
                    == before[j]
        }),
{
    let added = ChangeView::Write { offset, data };
    lemma_replay_prefix_push(initial, changes, added, None, changes.len());
    lemma_replay_len(initial, changes, None);
}

/// After a sync is added to the changes, the data is as before.
pub proof fn lemma_append_sync(initial: Seq<u8>, changes: Seq<ChangeView>)
    ensures
        replay(initial, changes.push(ChangeView::Sync), None) == replay(initial, changes, None),
{
    lemma_replay_prefix_push(initial, changes, ChangeView::Sync, None, changes.len());
}

/// An empty filter text chooses no filter, so the data that it gives is
/// the data with every change applied.
pub proof fn lemma_empty_filter(initial: Seq<u8>, changes: Seq<ChangeView>)
    ensures
        chosen_filter(Seq::<char>::empty()) == Some(None::<Seq<bool>>),
        chosen_filter(Seq::<char>::empty()) matches Some(filter) && replay(initial, changes, filter)
            == replay(initial, changes, None),
{
}

} // verus!
