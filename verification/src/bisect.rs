//! The bisecting test driver: which test to verify next, given the results
//! seen so far.
//!
//! The driver itself runs nothing. The caller asks it for the next test,
//! verifies that test by whatever means it has, and hands back the exit
//! code of the verifier.

use vstd::prelude::*;

verus! {

/// What is known of one test.
#[derive(Copy, Clone, Debug, PartialEq, Eq, Structural)]
pub enum Tested {
    /// Not verified yet.
    Unknown,
    /// Verified, with the variant that the verifier reported.
    Pass(usize),
}

/// What an exit code of the verifier means.
#[derive(Copy, Clone, Debug, PartialEq, Eq, Structural)]
pub enum Verdict {
    /// An acceptable state, labelled by its variant.
    Pass(usize),
    /// A failure, with the exit code.
    Fail(i32),
}

/// The meaning of an exit code: `0` passes with variant 0, `10..=19` pass
/// with variant `code - 10`, anything else fails.
pub open spec fn verdict_of(code: i32) -> Verdict {
    if code == 0 {
        Verdict::Pass(0)
    } else if 10 <= code <= 19 {
        Verdict::Pass((code - 10) as usize)
    } else {
        Verdict::Fail(code)
    }
}

/// Maps an exit code of the verifier to its verdict.
pub fn classify(code: i32) -> (verdict: Verdict)
    ensures
        verdict == verdict_of(code),
{
    if code >= 10 && code < 20 {
        Verdict::Pass((code - 10) as usize)
    } else if code == 0 {
        Verdict::Pass(0)
    } else {
        Verdict::Fail(code)
    }
}

/// The greatest index below `b` that holds a pass, or -1 if there is none.
pub open spec fn prev_pass(tested: Seq<Tested>, b: int) -> int
    decreases b,
{
    if b <= 0 {
        -1
    } else if tested[b - 1] is Pass {
        b - 1
    } else {
        prev_pass(tested, b - 1)
    }
}

/// The distance from `b` back to the pass before it, if `b` holds a pass,
/// there is a pass before it and the two variants differ; 0 otherwise.
pub open spec fn gap_before(tested: Seq<Tested>, b: int) -> int {
    let a = prev_pass(tested, b);
    if 0 <= b < tested.len() && tested[b] is Pass && a >= 0 && tested[a]->Pass_0
        != tested[b]->Pass_0 {
        b - a
    } else {
        0
    }
}

/// The index below `n` where the widest gap ends; of several equally wide
/// gaps the first. 0 if `n` is 0.
pub open spec fn widest_gap_end(tested: Seq<Tested>, n: int) -> int
    decreases n,
{
    if n <= 0 {
        0
    } else {
        let best = widest_gap_end(tested, n - 1);
        if gap_before(tested, n - 1) > gap_before(tested, best) {
            n - 1
        } else {
            best
        }
    }
}

/// The first index from `i` on that is unknown, or the length of `tested`
/// if there is none.
pub open spec fn unknown_from(tested: Seq<Tested>, i: int) -> int
    decreases tested.len() - i,
{
    if i < 0 || i >= tested.len() {
        tested.len() as int
    } else if tested[i] is Unknown {
        i
    } else {
        unknown_from(tested, i + 1)
    }
}

/// The first unknown index met when walking from `start` to the end and
/// then on from 0.
pub open spec fn next_unknown(tested: Seq<Tested>, start: int) -> int {
    let k = unknown_from(tested, start);
    if k < tested.len() {
        k
    } else {
        unknown_from(tested, 0)
    }
}

/// The test to verify after test `last`.
///
/// After test 0 comes the last test. Later the widest gap between two
/// neighbouring passes of different variants is halved, as long as one is
/// wider than 1. When none is, the next unknown test after `last` is taken,
/// wrapping round at the end.
pub open spec fn next_after(tested: Seq<Tested>, last: int) -> int {
    if last == 0 {
        tested.len() - 1
    } else {
        let end = widest_gap_end(tested, tested.len() as int);
        let distance = gap_before(tested, end);
        if distance > 1 {
            ((end - distance) + end) / 2
        } else {
            next_unknown(tested, (last + 1) % (tested.len() as int))
        }
    }
}

/// How many tests hold a pass.
pub open spec fn pass_count(tested: Seq<Tested>) -> nat
    decreases tested.len(),
{
    if tested.len() == 0 {
        0
    } else {
        pass_count(tested.drop_last()) + if tested.last() is Pass {
            1nat
        } else {
            0nat
        }
    }
}

/// The index that `prev_pass` gives holds a pass, and nothing between it
/// and `b` does.
proof fn lemma_prev_pass(tested: Seq<Tested>, b: int)
    requires
        0 <= b <= tested.len(),
    ensures
        -1 <= prev_pass(tested, b) < b,
        prev_pass(tested, b) >= 0 ==> tested[prev_pass(tested, b)] is Pass,
        forall|k: int| prev_pass(tested, b) < k < b ==> tested[k] is Unknown,
    decreases b,
{
    if b > 0 && !(tested[b - 1] is Pass) {
        lemma_prev_pass(tested, b - 1);
    }
}

/// No gap that ends below `n` is wider than the one that `widest_gap_end`
/// gives, and none that ends before it is as wide.
pub proof fn lemma_widest_gap_end(tested: Seq<Tested>, n: int)
    requires
        0 <= n <= tested.len(),
    ensures
        0 <= widest_gap_end(tested, n),
        n > 0 ==> widest_gap_end(tested, n) < n,
        forall|b: int|
            0 <= b < n ==> #[trigger] gap_before(tested, b) <= gap_before(
                tested,
                widest_gap_end(tested, n),
            ),
        forall|b: int|
            0 <= b < widest_gap_end(tested, n) ==> #[trigger] gap_before(tested, b) < gap_before(
                tested,
                widest_gap_end(tested, n),
            ),
    decreases n,
{
    if n > 0 {
        lemma_widest_gap_end(tested, n - 1);
    }
}

/// The index that `unknown_from` gives is unknown, and nothing between `i`
/// and it is.
proof fn lemma_unknown_from(tested: Seq<Tested>, i: int)
    requires
        0 <= i <= tested.len(),
    ensures
        i <= unknown_from(tested, i) <= tested.len(),
        unknown_from(tested, i) < tested.len() ==> tested[unknown_from(tested, i)] is Unknown,
        forall|k: int| i <= k < unknown_from(tested, i) ==> tested[k] is Pass,
    decreases tested.len() - i,
{
    if i < tested.len() && !(tested[i] is Unknown) {
        lemma_unknown_from(tested, i + 1);
    }
}

/// A list with fewer passes than entries holds an unknown entry.
proof fn lemma_some_unknown(tested: Seq<Tested>)
    requires
        pass_count(tested) < tested.len(),
    ensures
        exists|k: int| 0 <= k < tested.len() && tested[k] is Unknown,
    decreases tested.len(),
{
    if tested.last() is Pass {
        lemma_some_unknown(tested.drop_last());
        let k = choose|k: int| 0 <= k < tested.len() - 1 && tested.drop_last()[k] is Unknown;
        assert(tested[k] is Unknown);
    } else {
        assert(tested[tested.len() - 1] is Unknown);
    }
}

/// A list holds no more passes than entries.
proof fn lemma_pass_count_bound(tested: Seq<Tested>)
    ensures
        pass_count(tested) <= tested.len(),
    decreases tested.len(),
{
    if tested.len() > 0 {
        lemma_pass_count_bound(tested.drop_last());
    }
}

/// Recording a pass at an unknown index adds one to the count.
proof fn lemma_pass_count_update(tested: Seq<Tested>, i: int, variant: usize)
    requires
        0 <= i < tested.len(),
        tested[i] is Unknown,
    ensures
        pass_count(tested.update(i, Tested::Pass(variant))) == pass_count(tested) + 1,
    decreases tested.len(),
{
    let after = tested.update(i, Tested::Pass(variant));
    if i == tested.len() - 1 {
        assert(after.drop_last() =~= tested.drop_last());
    } else {
        assert(after.drop_last() =~= tested.drop_last().update(i, Tested::Pass(variant)));
        lemma_pass_count_update(tested.drop_last(), i, variant);
    }
}

/// A list in which nothing but index 0 can hold a pass counts at most one.
proof fn lemma_pass_count_single(tested: Seq<Tested>)
    requires
        forall|k: int| 1 <= k < tested.len() ==> tested[k] is Unknown,
    ensures
        pass_count(tested) <= 1,
        tested.len() > 0 && tested[0] is Pass ==> pass_count(tested) == 1,
        tested.len() > 0 && tested[0] is Unknown ==> pass_count(tested) == 0,
    decreases tested.len(),
{
    if tested.len() > 1 {
        lemma_pass_count_single(tested.drop_last());
    } else if tested.len() == 1 {
        assert(pass_count(tested.drop_last()) == 0);
    }
}

/// The test that follows `last` is in range and still unknown, provided
/// that an unknown test is left and that, if `last` is 0, the last test is
/// one.
proof fn lemma_next_after_unknown(tested: Seq<Tested>, last: int)
    requires
        0 <= last < tested.len(),
        exists|k: int| 0 <= k < tested.len() && tested[k] is Unknown,
        last == 0 ==> tested[tested.len() - 1] is Unknown,
    ensures
        0 <= next_after(tested, last) < tested.len(),
        tested[next_after(tested, last)] is Unknown,
{
    let n = tested.len() as int;
    if last != 0 {
        let end = widest_gap_end(tested, n);
        let distance = gap_before(tested, end);
        if distance > 1 {
            lemma_prev_pass(tested, end);
        } else {
            lemma_unknown_from(tested, (last + 1) % n);
            lemma_unknown_from(tested, 0);
        }
    }
}

/// The first unknown index from `i` on, or the number of tests.
fn first_unknown_from(tested: &Vec<Tested>, i: usize) -> (k: usize)
    requires
        i <= tested.len(),
    ensures
        k == unknown_from(tested@, i as int),
{
    let mut k = i;
    while k < tested.len()
        invariant
            i <= k <= tested.len(),
            unknown_from(tested@, k as int) == unknown_from(tested@, i as int),
        decreases tested.len() - k,
    {
        match tested[k] {
            Tested::Unknown => {
                return k;
            },
            Tested::Pass(_) => {},
        }
        k += 1;
    }
    k
}

/// Picks the test to verify after test `last`.
pub fn next_index(tested: &Vec<Tested>, last: usize) -> (next: usize)
    requires
        last < tested.len(),
    ensures
        next == next_after(tested@, last as int),
{
    let n = tested.len();
    if last == 0 {
        return n - 1;
    }
    let mut best_end: usize = 0;
    let mut best_distance: usize = 0;
    let mut prev: Option<(usize, usize)> = None;
    let mut j: usize = 0;
    while j < n
        invariant
            j <= n,
            n == tested.len(),
            match prev {
                None => prev_pass(tested@, j as int) == -1,
                Some((a, v)) => prev_pass(tested@, j as int) == a && a < j && tested@[a as int]
                    == Tested::Pass(v),
            },
            best_end == widest_gap_end(tested@, j as int),
            best_distance == gap_before(tested@, best_end as int),
            best_end < n,
        decreases n - j,
    {
        match tested[j] {
            Tested::Unknown => {},
            Tested::Pass(v) => {
                if let Some((a, w)) = prev {
                    if v != w && j - a > best_distance {
                        best_distance = j - a;
                        best_end = j;
                    }
                }
                prev = Some((j, v));
            },
        }
        j += 1;
    }
    if best_distance > 1 {
        (best_end - best_distance) + best_distance / 2
    } else {
        let k = first_unknown_from(tested, (last + 1) % n);
        if k < n {
            k
        } else {
            first_unknown_from(tested, 0)
        }
    }
}

/// The state of a bisecting run, as a mathematical value.
pub struct DriverView {
    /// What is known of each test.
    pub tested: Seq<Tested>,
    /// How many tests have passed.
    pub count: nat,
    /// The test to verify next.
    pub next: int,
    /// The test that failed and the exit code it failed with.
    pub failure: Option<(int, i32)>,
}

impl DriverView {
    /// The state before any test of `total` has been verified.
    pub open spec fn start(total: nat) -> DriverView {
        DriverView {
            tested: Seq::new(total, |i: int| Tested::Unknown),
            count: 0,
            next: 0,
            failure: None,
        }
    }

    /// Whether the run is over: a test failed, or every test passed.
    pub open spec fn finished(self) -> bool {
        self.failure is Some || self.count >= self.tested.len()
    }

    /// How many times the verifier has been invoked.
    pub open spec fn invocations(self) -> nat {
        if self.failure is Some {
            self.count + 1
        } else {
            self.count
        }
    }

    /// What holds of every state that a run reaches.
    pub open spec fn wf(self) -> bool {
        &&& self.count == pass_count(self.tested)
        &&& self.count >= 1 ==> self.tested[0] is Pass
        &&& self.count == 0 ==> self.next == 0
        &&& self.count < self.tested.len() ==> 0 <= self.next < self.tested.len()
            && self.tested[self.next] is Unknown
        &&& self.failure matches Some((i, code)) ==> i == self.next && self.count
            < self.tested.len() && verdict_of(code) is Fail
    }

    /// The state after the verifier has answered `code` for the test `next`.
    pub open spec fn record(self, code: i32) -> DriverView {
        match verdict_of(code) {
            Verdict::Fail(_) => DriverView { failure: Some((self.next, code)), ..self },
            Verdict::Pass(variant) => {
                let tested = self.tested.update(self.next, Tested::Pass(variant));
                let count = self.count + 1;
                DriverView {
                    tested,
                    count,
                    next: if count < tested.len() {
                        next_after(tested, self.next)
                    } else {
                        self.next
                    },
                    failure: None,
                }
            },
        }
    }

    /// The state after at most `steps` further invocations of `verifier`,
    /// which maps the index of a test to the exit code for it.
    pub open spec fn run(self, verifier: spec_fn(int) -> i32, steps: nat) -> DriverView
        decreases steps,
    {
        if steps == 0 || self.finished() {
            self
        } else {
            self.record(verifier(self.next)).run(verifier, (steps - 1) as nat)
        }
    }

    /// The tests that are verified in a run of at most `steps` further
    /// invocations of `verifier`, in the order of their turn.
    pub open spec fn visits(self, verifier: spec_fn(int) -> i32, steps: nat) -> Seq<int>
        decreases steps,
    {
        if steps == 0 || self.finished() {
            Seq::empty()
        } else {
            seq![self.next] + self.record(verifier(self.next)).visits(
                verifier,
                (steps - 1) as nat,
            )
        }
    }

    /// Whether every recorded pass is what `verifier` answers for its test.
    pub open spec fn agrees_with(self, verifier: spec_fn(int) -> i32) -> bool {
        forall|i: int|
            0 <= i < self.tested.len() && (#[trigger] self.tested[i]) is Pass ==> verdict_of(
                verifier(i),
            ) == Verdict::Pass(self.tested[i]->Pass_0)
    }
}

/// A list without a pass holds unknown entries only.
proof fn lemma_no_pass(tested: Seq<Tested>)
    requires
        pass_count(tested) == 0,
    ensures
        forall|k: int| 0 <= k < tested.len() ==> tested[k] is Unknown,
    decreases tested.len(),
{
    if tested.len() > 0 {
        lemma_no_pass(tested.drop_last());
        assert forall|k: int| 0 <= k < tested.len() implies tested[k] is Unknown by {
            if k < tested.len() - 1 {
                assert(tested.drop_last()[k] == tested[k]);
            }
        }
    }
}

/// One step of a run: the test handed out was unknown until now, and the
/// state after the answer is again one that a run can reach. A pass is
/// recorded at that test and nowhere else; a fail ends the run.
pub proof fn lemma_record(state: DriverView, code: i32)
    requires
        state.wf(),
        !state.finished(),
    ensures
        0 <= state.next < state.tested.len(),
        state.tested[state.next] is Unknown,
        state.record(code).wf(),
        state.record(code).invocations() == state.invocations() + 1,
        verdict_of(code) matches Verdict::Pass(variant) ==> state.record(code).tested
            == state.tested.update(state.next, Tested::Pass(variant)),
        verdict_of(code) is Fail ==> state.record(code).finished() && state.record(code).tested
            == state.tested && state.record(code).failure == Some((state.next, code)),
{
    let after = state.record(code);
    match verdict_of(code) {
        Verdict::Fail(_) => {},
        Verdict::Pass(variant) => {
            lemma_pass_count_update(state.tested, state.next, variant);
            if after.count < after.tested.len() {
                lemma_some_unknown(after.tested);
                if state.next == 0 {
                    lemma_no_pass(state.tested);
                }
                lemma_next_after_unknown(after.tested, state.next);
            }
        },
    }
}

/// Whatever the verifier answers, a run over `total` tests is over after
/// at most `total` invocations. It invokes the verifier on no test twice.
/// If no test fails it invokes it exactly `total` times and every test ends
/// with the pass that the verifier gave it; otherwise it halts at the first
/// fail and reports the test and the exit code.
pub proof fn lemma_run_terminates(total: nat, verifier: spec_fn(int) -> i32)
    ensures
        ({
            let end = DriverView::start(total).run(verifier, total);
            &&& end.wf()
            &&& end.finished()
            &&& end.tested.len() == total
            &&& end.agrees_with(verifier)
            &&& end.invocations() <= total
            &&& end.failure is None ==> end.invocations() == total && forall|i: int|
                0 <= i < total ==> end.tested[i] is Pass
            &&& end.failure matches Some((i, code)) ==> 0 <= i < total && code == verifier(i)
                && verdict_of(code) is Fail && end.tested[i] is Unknown
        }),
        ({
            let visits = DriverView::start(total).visits(verifier, total);
            &&& visits.no_duplicates()
            &&& visits.len() == DriverView::start(total).run(verifier, total).invocations()
            &&& forall|k: int| 0 <= k < visits.len() ==> 0 <= #[trigger] visits[k] < total
        }),
{
    let first = DriverView::start(total);
    lemma_pass_count_single(first.tested);
    lemma_run_from(first, verifier, total);
    lemma_visits_from(first, verifier, total);
    let end = first.run(verifier, total);
    if end.failure is None {
        assert forall|i: int| 0 <= i < total implies end.tested[i] is Pass by {
            if end.tested[i] is Unknown {
                lemma_all_pass(end.tested);
            }
        }
    }
}

/// A list with as many passes as entries holds passes only.
proof fn lemma_all_pass(tested: Seq<Tested>)
    requires
        pass_count(tested) >= tested.len(),
    ensures
        forall|k: int| 0 <= k < tested.len() ==> tested[k] is Pass,
    decreases tested.len(),
{
    if tested.len() > 0 {
        lemma_pass_count_bound(tested.drop_last());
        lemma_all_pass(tested.drop_last());
        assert forall|k: int| 0 <= k < tested.len() implies tested[k] is Pass by {
            if k < tested.len() - 1 {
                assert(tested.drop_last()[k] == tested[k]);
            }
        }
    }
}

/// The tests that a run verifies are unknown when it sets out, and none of
/// them has its turn twice. There are as many as the run invokes the
/// verifier.
proof fn lemma_visits_from(state: DriverView, verifier: spec_fn(int) -> i32, steps: nat)
    requires
        state.wf(),
    ensures
        ({
            let visits = state.visits(verifier, steps);
            &&& visits.no_duplicates()
            &&& visits.len() + state.invocations() == state.run(verifier, steps).invocations()
            &&& forall|k: int|
                0 <= k < visits.len() ==> 0 <= #[trigger] visits[k] < state.tested.len()
                    && state.tested[visits[k]] is Unknown
        }),
    decreases steps,
{
    if steps > 0 && !state.finished() {
        let code = verifier(state.next);
        lemma_record(state, code);
        let after = state.record(code);
        lemma_visits_from(after, verifier, (steps - 1) as nat);
    }
}

/// A run from any reachable state stays within reachable states, and is
/// over once it has been given as many steps as tests were left.
proof fn lemma_run_from(state: DriverView, verifier: spec_fn(int) -> i32, steps: nat)
    requires
        state.wf(),
        state.agrees_with(verifier),
        state.failure matches Some((i, code)) ==> code == verifier(i),
        state.count <= state.tested.len(),
    ensures
        ({
            let end = state.run(verifier, steps);
            &&& end.wf()
            &&& end.agrees_with(verifier)
            &&& end.tested.len() == state.tested.len()
            &&& end.count <= end.tested.len()
            &&& end.failure matches Some((i, code)) ==> code == verifier(i)
            &&& steps + state.count >= state.tested.len() ==> end.finished()
            &&& end.invocations() <= state.invocations() + steps
        }),
    decreases steps,
{
    if steps > 0 && !state.finished() {
        let code = verifier(state.next);
        lemma_record(state, code);
        let after = state.record(code);
        lemma_run_from(after, verifier, (steps - 1) as nat);
    }
}

/// Drives a bisecting run over a fixed number of tests.
pub struct BisectDriver {
    tested: Vec<Tested>,
    tested_count: usize,
    next_test_index: usize,
    failure: Option<(usize, i32)>,
}

impl View for BisectDriver {
    type V = DriverView;

    closed spec fn view(&self) -> DriverView {
        DriverView {
            tested: self.tested@,
            count: self.tested_count as nat,
            next: self.next_test_index as int,
            failure: match self.failure {
                None => None,
                Some((i, code)) => Some((i as int, code)),
            },
        }
    }
}

impl BisectDriver {
    /// A driver for `total` tests, none of them verified yet.
    pub fn new(total: usize) -> (driver: Self)
        ensures
            driver@ == DriverView::start(total as nat),
            driver@.wf(),
    {
        let mut tested: Vec<Tested> = Vec::new();
        let mut i: usize = 0;
        while i < total
            invariant
                i <= total,
                tested@ == Seq::new(i as nat, |k: int| Tested::Unknown),
            decreases total - i,
        {
            tested.push(Tested::Unknown);
            i += 1;
        }
        proof {
            lemma_pass_count_single(tested@);
        }
        BisectDriver { tested, tested_count: 0, next_test_index: 0, failure: None }
    }

    /// The number of tests.
    pub fn total(&self) -> (total: usize)
        ensures
            total == self@.tested.len(),
    {
        self.tested.len()
    }

    /// The number of tests that have passed.
    pub fn tested_count(&self) -> (count: usize)
        ensures
            count == self@.count,
    {
        self.tested_count
    }

    /// What is known of test `i`.
    pub fn tested(&self, i: usize) -> (known: Tested)
        requires
            i < self@.tested.len(),
        ensures
            known == self@.tested[i as int],
    {
        self.tested[i]
    }

    /// The test that failed and the exit code of the verifier, if one did.
    pub fn failure(&self) -> (failure: Option<(usize, i32)>)
        ensures
            match failure {
                None => self@.failure is None,
                Some((i, code)) => self@.failure == Some((i as int, code)),
            },
    {
        self.failure
    }

    /// The exit code of the run: that of the verifier for the test that
    /// failed, or 0 if none did.
    pub fn exit_code(&self) -> (code: i32)
        ensures
            code == match self@.failure {
                None => 0,
                Some((_, failed)) => failed,
            },
    {
        match self.failure {
            None => 0,
            Some((_, code)) => code,
        }
    }

    /// The test to verify now, or `None` when the run is over.
    pub fn next_test(&self) -> (next: Option<usize>)
        requires
            self@.wf(),
        ensures
            match next {
                None => self@.finished(),
                Some(i) => !self@.finished() && i == self@.next && i < self@.tested.len()
                    && self@.tested[i as int] is Unknown,
            },
    {
        if self.failure.is_some() || self.tested_count >= self.tested.len() {
            None
        } else {
            Some(self.next_test_index)
        }
    }

    /// Takes the exit code of the verifier for the test that `next_test`
    /// handed out, and chooses the test that follows.
    pub fn record(&mut self, code: i32) -> (verdict: Verdict)
        requires
            old(self)@.wf(),
            !old(self)@.finished(),
        ensures
            verdict == verdict_of(code),
            final(self)@ == old(self)@.record(code),
            final(self)@.wf(),
    {
        proof {
            lemma_record(self@, code);
        }
        let i = self.next_test_index;
        let verdict = classify(code);
        match verdict {
            Verdict::Fail(_) => {
                self.failure = Some((i, code));
            },
            Verdict::Pass(variant) => {
                assert(self.tested_count < self.tested.len());
                self.tested.set(i, Tested::Pass(variant));
                self.tested_count = self.tested_count + 1;
                if self.tested_count < self.tested.len() {
                    self.next_test_index = next_index(&self.tested, i);
                }
            },
        }
        verdict
    }
}

} // verus!
