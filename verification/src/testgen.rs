//! The test generator: filters for the crash points between two syncs.
//!
//! A window is the run of changes between one sync and the next. For a
//! narrow window every subset of its changes becomes a filter; for a wide
//! one a random walk picks some.

use crate::journal::{Change, ChangeView};
use crate::text::{bits_text, decimal, push_bits, push_decimal, texts};
use vstd::prelude::*;
use vstd::string::StringExecFns;

verus! {

/// Two to the power of `n`.
pub open spec fn pow2(n: nat) -> nat
    decreases n,
{
    if n == 0 {
        1
    } else {
        2 * pow2((n - 1) as nat)
    }
}

/// The number `k` as `width` binary digits, the most significant first.
/// Digits of `k` beyond the width are left out.
pub open spec fn pattern_bits(k: nat, width: nat) -> Seq<bool>
    decreases width,
{
    if width == 0 {
        Seq::empty()
    } else {
        pattern_bits(k / 2, (width - 1) as nat).push(k % 2 == 1)
    }
}

/// The filter that takes the first `start` changes and then goes by `bits`.
pub open spec fn filter_text(start: nat, bits: Seq<bool>) -> Seq<char> {
    decimal(start) + seq![':'] + bits_text(bits)
}

/// Every filter for a window of `width` changes that begins at `start`, in
/// the numeric order of their bit patterns.
pub open spec fn all_patterns(start: nat, width: nat) -> Seq<Seq<char>> {
    Seq::new(pow2(width), |k: int| filter_text(start, pattern_bits(k as nat, width)))
}

/// The bit pattern that follows `bits` in numeric order. The pattern of
/// ones only is followed by the one of zeros only.
pub open spec fn next_pattern(bits: Seq<bool>) -> Seq<bool>
    decreases bits.len(),
{
    if bits.len() == 0 {
        bits
    } else if bits.last() {
        next_pattern(bits.drop_last()).push(false)
    } else {
        bits.drop_last().push(true)
    }
}

/// Whether every bit is set.
pub open spec fn all_ones(bits: Seq<bool>) -> bool {
    forall|i: int| 0 <= i < bits.len() ==> bits[i]
}

/// The number that a bit pattern stands for, the most significant bit
/// first.
pub open spec fn bits_value(bits: Seq<bool>) -> nat
    decreases bits.len(),
{
    if bits.len() == 0 {
        0
    } else {
        2 * bits_value(bits.drop_last()) + if bits.last() {
            1nat
        } else {
            0nat
        }
    }
}

/// The pattern of a number is as wide as asked.
pub proof fn lemma_pattern_len(k: nat, width: nat)
    ensures
        pattern_bits(k, width).len() == width,
    decreases width,
{
    if width > 0 {
        lemma_pattern_len(k / 2, (width - 1) as nat);
    }
}

/// The pattern of a number that fits in the width stands for that number.
pub proof fn lemma_pattern_value(k: nat, width: nat)
    requires
        k < pow2(width),
    ensures
        bits_value(pattern_bits(k, width)) == k,
    decreases width,
{
    if width > 0 {
        lemma_pattern_value(k / 2, (width - 1) as nat);
        assert(pattern_bits(k, width).drop_last() =~= pattern_bits(k / 2, (width - 1) as nat));
    }
}

/// The filters of a narrow window are as many as there are numbers of the
/// width of the window. The one at place `k` spells the number `k` in
/// binary, in as many digits as the window is wide.
pub proof fn lemma_all_patterns(start: nat, width: nat, k: nat)
    requires
        k < pow2(width),
    ensures
        all_patterns(start, width).len() == pow2(width),
        all_patterns(start, width)[k as int] == filter_text(start, pattern_bits(k, width)),
        pattern_bits(k, width).len() == width,
        bits_text(pattern_bits(k, width)).len() == width,
        bits_value(pattern_bits(k, width)) == k,
{
    lemma_pattern_len(k, width);
    lemma_pattern_value(k, width);
}

/// The pattern of zero is zeros only.
proof fn lemma_pattern_zero(width: nat)
    ensures
        pattern_bits(0, width) =~= Seq::new(width, |i: int| false),
    decreases width,
{
    if width > 0 {
        lemma_pattern_zero((width - 1) as nat);
    }
}

/// The pattern that follows the pattern of a number is the pattern of the
/// next number.
proof fn lemma_next_pattern(k: nat, width: nat)
    ensures
        next_pattern(pattern_bits(k, width)) == pattern_bits(k + 1, width),
    decreases width,
{
    if width > 0 {
        assert(pattern_bits(k, width).drop_last() =~= pattern_bits(k / 2, (width - 1) as nat));
        if k % 2 == 1 {
            lemma_next_pattern(k / 2, (width - 1) as nat);
        }
    }
}

/// The pattern of ones only is that of the largest number of the width.
proof fn lemma_pattern_all_ones(k: nat, width: nat)
    requires
        k < pow2(width),
    ensures
        all_ones(pattern_bits(k, width)) <==> k + 1 == pow2(width),
    decreases width,
{
    if width > 0 {
        let rest = pattern_bits(k / 2, (width - 1) as nat);
        let bits = pattern_bits(k, width);
        lemma_pattern_len(k / 2, (width - 1) as nat);
        lemma_pattern_all_ones(k / 2, (width - 1) as nat);
        if all_ones(bits) {
            assert(bits[width - 1]);
            assert forall|i: int| 0 <= i < rest.len() implies rest[i] by {
                assert(bits[i] == rest[i]);
            }
        }
        if k + 1 == pow2(width) {
            assert forall|i: int| 0 <= i < bits.len() implies bits[i] by {
                if i < width - 1 {
                    assert(bits[i] == rest[i]);
                }
            }
        }
    }
}

/// Steps `bits` on to the next pattern in numeric order. Returns whether
/// there was one: `false` means that `bits` held ones only and now holds
/// zeros only.
pub fn advance_pattern(bits: &mut Vec<bool>) -> (more: bool)
    ensures
        final(bits)@ == next_pattern(old(bits)@),
        more == !all_ones(old(bits)@),
{
    let mut i = bits.len();
    while i > 0
        invariant
            i <= bits.len(),
            bits@.len() == old(bits)@.len(),
            forall|j: int| 0 <= j < i ==> bits@[j] == old(bits)@[j],
            forall|j: int| i <= j < bits@.len() ==> old(bits)@[j] && !bits@[j],
        decreases i,
    {
        i -= 1;
        if bits[i] {
            bits.set(i, false);
        } else {
            bits.set(i, true);
            proof {
                lemma_carry(old(bits)@, i as int);
                assert(bits@ =~= old(bits)@.take(i as int).push(true) + Seq::new(
                    (old(bits)@.len() - i - 1) as nat,
                    |j: int| false,
                ));
            }
            return true;
        }
    }
    proof {
        lemma_wrap(old(bits)@);
    }
    false
}

/// Stepping on a pattern that ends in a zero and then ones only sets the
/// zero and clears the ones.
proof fn lemma_carry(bits: Seq<bool>, i: int)
    requires
        0 <= i < bits.len(),
        !bits[i],
        forall|j: int| i < j < bits.len() ==> bits[j],
    ensures
        next_pattern(bits) == bits.take(i).push(true) + Seq::new(
            (bits.len() - i - 1) as nat,
            |j: int| false,
        ),
    decreases bits.len(),
{
    if i < bits.len() - 1 {
        lemma_carry(bits.drop_last(), i);
    }
}

/// Stepping on the pattern of ones only gives the one of zeros only.
proof fn lemma_wrap(bits: Seq<bool>)
    requires
        all_ones(bits),
    ensures
        next_pattern(bits) == Seq::new(bits.len(), |j: int| false),
    decreases bits.len(),
{
    if bits.len() > 0 {
        lemma_wrap(bits.drop_last());
    }
}

/// The text of the filter that takes the first `start` changes and then
/// goes by `bits`.
pub fn render_filter(start: usize, bits: &Vec<bool>) -> (text: String)
    ensures
        text@ == filter_text(start as nat, bits@),
{
    let mut text = String::new();
    push_decimal(&mut text, start as u64);
    proof {
        reveal_strlit(":");
    }
    text.append(":");
    push_bits(&mut text, bits);
    text
}

/// Every filter for the window of `width` changes that begins at `start`:
/// the bit patterns from zeros only to ones only in numeric order, each
/// `width` characters wide.
pub fn all_window_tests(start: usize, width: usize) -> (tests: Vec<String>)
    ensures
        texts(tests@) == all_patterns(start as nat, width as nat),
{
    let mut tests: Vec<String> = Vec::new();
    let mut bits: Vec<bool> = Vec::new();
    let mut i: usize = 0;
    while i < width
        invariant
            i <= width,
            bits@ == Seq::new(i as nat, |j: int| false),
        decreases width - i,
    {
        bits.push(false);
        i += 1;
    }
    let ghost mut k: nat = 0;
    proof {
        lemma_pattern_zero(width as nat);
        lemma_pow2_positive(width as nat);
    }
    let mut more = true;
    while more
        invariant
            k <= pow2(width as nat),
            more <==> k < pow2(width as nat),
            bits@ == pattern_bits(k, width as nat),
            texts(tests@) == all_patterns(start as nat, width as nat).take(k as int),
        decreases pow2(width as nat) - k,
    {
        let text = render_filter(start, &bits);
        let ghost before = tests@;
        tests.push(text);
        proof {
            assert(texts(tests@) =~= texts(before).push(text@));
            lemma_pattern_all_ones(k, width as nat);
            lemma_next_pattern(k, width as nat);
        }
        more = advance_pattern(&mut bits);
        proof {
            k = k + 1;
        }
    }
    assert(all_patterns(start as nat, width as nat).take(k as int) =~= all_patterns(
        start as nat,
        width as nat,
    ));
    tests
}

/// A power of two is above zero.
proof fn lemma_pow2_positive(n: nat)
    ensures
        pow2(n) > 0,
    decreases n,
{
    if n > 0 {
        lemma_pow2_positive((n - 1) as nat);
    }
}

/// `rand::rngs::ThreadRng`, the random number generator that a thread keeps
/// for itself. Nothing is known of what is inside one.
#[verifier::external_type_specification]
#[verifier::external_body]
pub struct ExThreadRng(rand::rngs::ThreadRng);

/// `rand::thread_rng` hands out the generator of the calling thread. Nothing
/// is claimed of the generator.
pub assume_specification[ rand::thread_rng ]() -> (rng: rand::rngs::ThreadRng)
;

/// `rand::Rng::gen_range` on `usize`: a number drawn from `low` up to but
/// not including `high`. It panics unless `low` is below `high`. Which
/// number comes is left open.
#[verifier::external_body]
fn random_in(rng: &mut rand::rngs::ThreadRng, low: usize, high: usize) -> (drawn: usize)
    requires
        low < high,
    ensures
        low <= drawn < high,
{
    rand::Rng::gen_range(rng, low, high)
}

/// How many bits one step of the random walk may flip, as the bound that
/// the number of flips stays below: `2 * width / max_log2`, and never less
/// than 2, so that at least one bit can be flipped. Where `max_log2` is 0
/// the quotient does not exist and the bound is 2. The product is capped at
/// the largest `usize`.
pub open spec fn flip_bound(width: nat, max_log2: nat) -> nat {
    let doubled = if 2 * width > usize::MAX {
        usize::MAX as nat
    } else {
        2 * width
    };
    if max_log2 == 0 || doubled / max_log2 < 2 {
        2
    } else {
        doubled / max_log2
    }
}

/// The bound that the number of bit flips of one step stays below.
pub fn flip_limit(width: usize, max_log2: usize) -> (limit: usize)
    ensures
        limit == flip_bound(width as nat, max_log2 as nat),
        limit >= 2,
{
    let doubled = if width > usize::MAX / 2 {
        usize::MAX
    } else {
        width * 2
    };
    if max_log2 == 0 {
        2
    } else {
        let quotient = doubled / max_log2;
        if quotient < 2 {
            2
        } else {
            quotient
        }
    }
}

/// How many filters a wide window gets: two to the power of `max_log2`,
/// capped at the largest `usize`.
pub fn sample_size(max_log2: usize) -> (size: usize)
    ensures
        size == if pow2(max_log2 as nat) <= usize::MAX {
            pow2(max_log2 as nat)
        } else {
            usize::MAX as nat
        },
{
    let mut size: usize = 1;
    let mut i: usize = 0;
    while i < max_log2
        invariant
            i <= max_log2,
            size == pow2(i as nat),
        decreases max_log2 - i,
    {
        if size > usize::MAX / 2 {
            proof {
                lemma_pow2_grows((i + 1) as nat, max_log2 as nat);
            }
            return usize::MAX;
        }
        size = size * 2;
        i += 1;
    }
    size
}

/// A power of two grows with its exponent.
proof fn lemma_pow2_grows(a: nat, b: nat)
    requires
        a <= b,
    ensures
        pow2(a) <= pow2(b),
    decreases b,
{
    if a < b {
        lemma_pow2_grows(a, (b - 1) as nat);
    }
}

/// Flips the bit at `index`.
pub fn flip_bit(bits: &mut Vec<bool>, index: usize)
    requires
        index < old(bits)@.len(),
    ensures
        final(bits)@ == old(bits)@.update(index as int, !old(bits)@[index as int]),
{
    let bit = bits[index];
    bits.set(index, !bit);
}

/// The views of a list of bit patterns.
pub open spec fn patterns_of(list: Seq<Vec<bool>>) -> Seq<Seq<bool>> {
    Seq::new(list.len(), |i: int| list[i]@)
}

/// Whether two bit patterns are the same.
fn same_bits(a: &Vec<bool>, b: &Vec<bool>) -> (same: bool)
    ensures
        same == (a@ == b@),
{
    if a.len() != b.len() {
        return false;
    }
    let mut i: usize = 0;
    while i < a.len()
        invariant
            i <= a.len(),
            a.len() == b.len(),
            forall|j: int| 0 <= j < i ==> a@[j] == b@[j],
        decreases a.len() - i,
    {
        if a[i] != b[i] {
            return false;
        }
        i += 1;
    }
    assert(a@ =~= b@);
    true
}

/// Adds `bits` to the patterns seen so far, unless it is among them.
/// Returns whether it was new.
pub fn record_pattern(seen: &mut Vec<Vec<bool>>, bits: &Vec<bool>) -> (fresh: bool)
    ensures
        fresh == !patterns_of(old(seen)@).contains(bits@),
        patterns_of(final(seen)@) == if fresh {
            patterns_of(old(seen)@).push(bits@)
        } else {
            patterns_of(old(seen)@)
        },
{
    let mut i: usize = 0;
    while i < seen.len()
        invariant
            i <= seen.len(),
            seen@ == old(seen)@,
            forall|j: int| 0 <= j < i ==> patterns_of(seen@)[j] != bits@,
        decreases seen.len() - i,
    {
        if same_bits(&seen[i], bits) {
            assert(patterns_of(seen@)[i as int] == bits@);
            return false;
        }
        i += 1;
    }
    let mut copy: Vec<bool> = Vec::new();
    let mut k: usize = 0;
    while k < bits.len()
        invariant
            k <= bits.len(),
            copy@ == bits@.take(k as int),
        decreases bits.len() - k,
    {
        copy.push(bits[k]);
        k += 1;
    }
    assert(copy@ =~= bits@);
    seen.push(copy);
    true
}

/// Whether `tests` are the filters of the bit patterns `patterns`, one by
/// one, for a window of `width` changes that begins at `start`, and no
/// pattern comes twice.
pub open spec fn sample_of(
    tests: Seq<Seq<char>>,
    patterns: Seq<Seq<bool>>,
    start: nat,
    width: nat,
) -> bool {
    &&& patterns.len() == tests.len()
    &&& patterns.no_duplicates()
    &&& forall|i: int|
        0 <= i < patterns.len() ==> (#[trigger] patterns[i]).len() == width && tests[i]
            == filter_text(start, patterns[i])
}

/// Whether `tests` may come out for a wide window: at least one filter and
/// at most two to the power of `max_log2`, each for a bit pattern of the
/// width of the window, none twice.
pub open spec fn is_sample(tests: Seq<Seq<char>>, start: nat, width: nat, max_log2: nat) -> bool {
    &&& 1 <= tests.len() <= pow2(max_log2)
    &&& exists|patterns: Seq<Seq<bool>>| sample_of(tests, patterns, start, width)
}

/// What the generator owes for one window: nothing for an empty one, every
/// filter in numeric order for one of at most `max_log2` changes, a sample
/// for a wider one.
pub open spec fn window_tests_ok(
    tests: Seq<Seq<char>>,
    start: nat,
    width: nat,
    max_log2: nat,
) -> bool {
    if width == 0 {
        tests.len() == 0
    } else if width <= max_log2 {
        tests == all_patterns(start, width)
    } else {
        is_sample(tests, start, width, max_log2)
    }
}

/// Filters for a wide window, picked by a random walk: from the pattern of
/// zeros only, each step flips a few bits chosen at random and keeps the
/// pattern it arrives at if that one is new. The walk ends when it has
/// `sample_size(max_log2)` patterns. Should 2^64 - 1 steps not be enough,
/// it ends with those it has.
fn sample_window(start: usize, width: usize, max_log2: usize) -> (tests: Vec<String>)
    requires
        width > 0,
    ensures
        is_sample(texts(tests@), start as nat, width as nat, max_log2 as nat),
{
    let size = sample_size(max_log2);
    let limit = flip_limit(width, max_log2);
    let mut bits: Vec<bool> = Vec::new();
    let mut i: usize = 0;
    while i < width
        invariant
            i <= width,
            bits@.len() == i,
        decreases width - i,
    {
        bits.push(false);
        i += 1;
    }
    let mut rng = rand::thread_rng();
    let mut seen: Vec<Vec<bool>> = Vec::new();
    let mut tests: Vec<String> = Vec::new();
    let mut steps: u64 = 0;
    proof {
        lemma_pow2_positive(max_log2 as nat);
    }
    while seen.len() < size && steps < u64::MAX
        invariant
            width > 0,
            limit >= 2,
            1 <= size <= pow2(max_log2 as nat),
            bits@.len() == width,
            seen@.len() <= size,
            steps > 0 ==> seen@.len() >= 1,
            sample_of(texts(tests@), patterns_of(seen@), start as nat, width as nat),
        decreases u64::MAX - steps,
    {
        steps += 1;
        let flip_count = random_in(&mut rng, 1, limit);
        let mut flipped: usize = 0;
        while flipped < flip_count
            invariant
                width > 0,
                bits@.len() == width,
                flipped <= flip_count,
            decreases flip_count - flipped,
        {
            let index = random_in(&mut rng, 0, width);
            flip_bit(&mut bits, index);
            flipped += 1;
        }
        let ghost tests_before = tests@;
        let ghost seen_before = seen@;
        let fresh = record_pattern(&mut seen, &bits);
        if fresh {
            let text = render_filter(start, &bits);
            tests.push(text);
            proof {
                assert(texts(tests@) =~= texts(tests_before).push(text@));
                assert(patterns_of(seen@) =~= patterns_of(seen_before).push(bits@));
                assert(patterns_of(seen@).no_duplicates());
            }
        }
    }
    tests
}

/// The filters for one window of `width` changes that begins at `start`.
pub fn window_tests(start: usize, width: usize, max_log2: usize) -> (tests: Vec<String>)
    ensures
        window_tests_ok(texts(tests@), start as nat, width as nat, max_log2 as nat),
{
    if width == 0 {
        Vec::new()
    } else if width <= max_log2 {
        all_window_tests(start, width)
    } else {
        sample_window(start, width, max_log2)
    }
}

/// Settings of the test generator.
#[derive(Debug, Clone)]
pub struct GenTestsOpt {
    /// The widest window that still gets every filter. A wider window gets
    /// two to the power of this many.
    pub max_cases_log2: usize,
}

/// The changes with a sync added at the end if the last change is a write.
pub open spec fn with_final_sync(changes: Seq<ChangeView>) -> Seq<ChangeView> {
    if changes.len() > 0 && changes.last() is Write {
        changes.push(ChangeView::Sync)
    } else {
        changes
    }
}

/// The positions of the syncs among `changes`, in rising order.
pub open spec fn sync_indexes(changes: Seq<ChangeView>) -> Seq<int>
    decreases changes.len(),
{
    if changes.len() == 0 {
        Seq::empty()
    } else {
        let rest = sync_indexes(changes.drop_last());
        if changes.last() is Sync {
            rest.push(changes.len() - 1)
        } else {
            rest
        }
    }
}

/// Where the window that ends at the `k`-th sync begins: behind the sync
/// before it, or at 0.
pub open spec fn window_start(syncs: Seq<int>, k: int) -> int {
    if k == 0 {
        0
    } else {
        syncs[k - 1] + 1
    }
}

/// The lists of `chunks` one after the other.
pub open spec fn joined(chunks: Seq<Seq<Seq<char>>>) -> Seq<Seq<char>>
    decreases chunks.len(),
{
    if chunks.len() == 0 {
        Seq::empty()
    } else {
        joined(chunks.drop_last()) + chunks.last()
    }
}

/// Whether `tests` is made of `chunks`, one for each window in order, each
/// being what the generator owes for its window.
pub open spec fn chunks_ok(
    tests: Seq<Seq<char>>,
    chunks: Seq<Seq<Seq<char>>>,
    syncs: Seq<int>,
    max_log2: nat,
) -> bool {
    &&& chunks.len() == syncs.len()
    &&& tests == joined(chunks)
    &&& forall|k: int|
        0 <= k < chunks.len() ==> window_tests_ok(
            #[trigger] chunks[k],
            window_start(syncs, k) as nat,
            (syncs[k] - window_start(syncs, k)) as nat,
            max_log2,
        )
}

/// Whether `tests` may come out for `changes`: the filters of the windows
/// between the syncs, window after window.
pub open spec fn tests_ok(tests: Seq<Seq<char>>, changes: Seq<ChangeView>, max_log2: nat) -> bool {
    exists|chunks: Seq<Seq<Seq<char>>>|
        chunks_ok(tests, chunks, sync_indexes(with_final_sync(changes)), max_log2)
}

/// Whether no window is wider than `max_log2`.
pub open spec fn all_narrow(changes: Seq<ChangeView>, max_log2: nat) -> bool {
    let syncs = sync_indexes(with_final_sync(changes));
    forall|k: int| 0 <= k < syncs.len() ==> #[trigger] syncs[k] - window_start(syncs, k) <= max_log2
}

/// Where no window is wider than `max_log2`, nothing is left to chance: any
/// two runs of the generator on the same changes give the same filters.
pub proof fn lemma_narrow_windows_determined(
    first: Seq<Seq<char>>,
    second: Seq<Seq<char>>,
    changes: Seq<ChangeView>,
    max_log2: nat,
)
    requires
        all_narrow(changes, max_log2),
        tests_ok(first, changes, max_log2),
        tests_ok(second, changes, max_log2),
    ensures
        first == second,
{
    let syncs = sync_indexes(with_final_sync(changes));
    let a = choose|chunks: Seq<Seq<Seq<char>>>| chunks_ok(first, chunks, syncs, max_log2);
    let b = choose|chunks: Seq<Seq<Seq<char>>>| chunks_ok(second, chunks, syncs, max_log2);
    lemma_sync_indexes(with_final_sync(changes));
    assert forall|k: int| 0 <= k < a.len() implies a[k] == b[k] by {
        assert(window_tests_ok(
            a[k],
            window_start(syncs, k) as nat,
            (syncs[k] - window_start(syncs, k)) as nat,
            max_log2,
        ));
        assert(window_tests_ok(
            b[k],
            window_start(syncs, k) as nat,
            (syncs[k] - window_start(syncs, k)) as nat,
            max_log2,
        ));
        if syncs[k] - window_start(syncs, k) == 0 {
            assert(a[k] =~= b[k]);
        }
    }
    assert(a =~= b);
}

/// A list of positions as integers.
pub open spec fn as_ints(positions: Seq<usize>) -> Seq<int> {
    Seq::new(positions.len(), |i: int| positions[i] as int)
}

/// The positions of the syncs are positions of the list, and they rise.
proof fn lemma_sync_indexes(changes: Seq<ChangeView>)
    ensures
        forall|k: int|
            0 <= k < sync_indexes(changes).len() ==> 0 <= #[trigger] sync_indexes(changes)[k]
                < changes.len(),
        forall|j: int, k: int|
            0 <= j < k < sync_indexes(changes).len() ==> sync_indexes(changes)[j] < sync_indexes(
                changes,
            )[k],
    decreases changes.len(),
{
    if changes.len() > 0 {
        lemma_sync_indexes(changes.drop_last());
        let rest = sync_indexes(changes.drop_last());
        let all = sync_indexes(changes);
        assert forall|k: int| 0 <= k < all.len() implies 0 <= #[trigger] all[k] < changes.len() by {
            if k < rest.len() {
                assert(all[k] == rest[k]);
            }
        }
        assert forall|j: int, k: int| 0 <= j < k < all.len() implies all[j] < all[k] by {
            assert(all[j] == rest[j]);
            if k < rest.len() {
                assert(all[k] == rest[k]);
            }
        }
    }
}

/// The positions of the syncs among `changes`, in rising order.
pub fn sync_positions(changes: &Vec<Change>) -> (positions: Vec<usize>)
    ensures
        as_ints(positions@) == sync_indexes(changes.deep_view()),
{
    let mut positions: Vec<usize> = Vec::new();
    let ghost all = changes.deep_view();
    let mut i: usize = 0;
    while i < changes.len()
        invariant
            i <= changes.len(),
            all == changes.deep_view(),
            as_ints(positions@) == sync_indexes(all.take(i as int)),
        decreases changes.len() - i,
    {
        assert(all.take(i + 1).drop_last() =~= all.take(i as int));
        match &changes[i] {
            Change::Sync => {
                positions.push(i);
            },
            Change::Write { .. } => {},
        }
        i += 1;
    }
    assert(all.take(changes.len() as int) =~= all);
    positions
}

/// Generates the filters to test: for each window between two syncs, every
/// subset of its changes if the window has at most `max_cases_log2` of
/// them, and a random sample of subsets if it has more. A write at the end
/// counts as followed by a sync.
pub fn gen_tests(changes: Vec<Change>, opt: &GenTestsOpt) -> (tests: Vec<String>)
    ensures
        tests_ok(texts(tests@), changes.deep_view(), opt.max_cases_log2 as nat),
{
    let ghost given = changes.deep_view();
    let mut changes = changes;
    let count = changes.len();
    // Ensure the last change is Sync.
    if count > 0 {
        let ends_in_write = match &changes[count - 1] {
            Change::Write { .. } => true,
            Change::Sync => false,
        };
        if ends_in_write {
            changes.push(Change::Sync);
        }
    }
    assert(changes.deep_view() =~= with_final_sync(given));
    // Figure out locations of "Sync"s.
    let sync_indexes = sync_positions(&changes);
    let ghost syncs = as_ints(sync_indexes@);
    let ghost max_log2 = opt.max_cases_log2 as nat;
    proof {
        lemma_sync_indexes(changes.deep_view());
    }
    // For each "Sync", generate test cases.
    let mut tests: Vec<String> = Vec::new();
    let ghost mut chunks: Seq<Seq<Seq<char>>> = Seq::empty();
    assert(texts(tests@) =~= joined(chunks));
    let mut k: usize = 0;
    while k < sync_indexes.len()
        invariant
            k <= sync_indexes.len(),
            syncs == as_ints(sync_indexes@),
            max_log2 == opt.max_cases_log2 as nat,
            forall|a: int, b: int| 0 <= a < b < syncs.len() ==> syncs[a] < syncs[b],
            chunks_ok(texts(tests@), chunks, syncs.take(k as int), max_log2),
        decreases sync_indexes.len() - k,
    {
        let start = if k == 0 {
            0
        } else {
            assert(syncs[k - 1] < syncs[k as int]);
            sync_indexes[k - 1] + 1
        };
        let width = sync_indexes[k] - start;
        let mut chunk = window_tests(start, width, opt.max_cases_log2);
        proof {
            let before = chunks;
            chunks = chunks.push(texts(chunk@));
            assert(chunks.drop_last() =~= before);
            assert forall|j: int| 0 <= j < chunks.len() implies window_tests_ok(
                #[trigger] chunks[j],
                window_start(syncs.take(k + 1), j) as nat,
                (syncs.take(k + 1)[j] - window_start(syncs.take(k + 1), j)) as nat,
                max_log2,
            ) by {
                if j < k {
                    assert(window_start(syncs.take(k + 1), j) == window_start(
                        syncs.take(k as int),
                        j,
                    ));
                }
            }
        }
        let ghost tests_before = tests@;
        let ghost added = chunk@;
        tests.append(&mut chunk);
        assert(texts(tests@) =~= texts(tests_before) + texts(added));
        k += 1;
    }
    assert(syncs.take(sync_indexes.len() as int) =~= syncs);
    tests
}

} // verus!
