//! Eight queens: one queen per row, the state gives each row's column.
use crate::random::{draw, draw_other, lemma_rearranged, shuffle, uniform_below};
use crate::schedule::Schedule;
use rand::rngs::StdRng;
use std::collections::HashSet;
use vstd::prelude::*;

verus! {

/// Number of rows, and of columns.
pub const SIZE: usize = 8;

/// A solved board, and the iterations it took to reach it.
#[derive(Clone, Copy, Debug, Eq, PartialEq, Hash)]
pub struct QueenRun {
    pub state: [u8; 8],
    pub steps: usize,
}

/// The budget of one attempt.
pub struct QueensConfig {
    pub max_steps: usize,
}

/// What a collection of attempts found.
pub struct CollectionResult {
    pub runs: Vec<QueenRun>,
    pub restarts: usize,
    pub total_steps: usize,
}

/// A single change to a state: the queen of `row` goes to `column`.
#[derive(Clone, Copy, Debug)]
pub struct QueenMove {
    pub row: usize,
    pub column: u8,
}

/// Whether every queen stands on the board.
pub open spec fn placement(state: Seq<u8>) -> bool {
    state.len() == SIZE && forall|i: int| 0 <= i < SIZE ==> state[i] < SIZE
}

/// Whether the queens of rows `i` and `j` share a column or a diagonal.
pub open spec fn attacks(state: Seq<u8>, i: int, j: int) -> bool {
    state[i] == state[j] || state[i] - state[j] == i - j || state[i] - state[j] == j - i
}

/// Number of rows `j` with `i < j < upto` whose queen attacks the queen of row `i`.
pub open spec fn conflicts_after(state: Seq<u8>, i: int, upto: int) -> nat
    decreases upto - i,
{
    if upto <= i + 1 {
        0
    } else {
        conflicts_after(state, i, upto - 1) + if attacks(state, i, upto - 1) {
            1nat
        } else {
            0nat
        }
    }
}

/// Number of attacking pairs whose lower row is below `rows`.
pub open spec fn conflicts_below(state: Seq<u8>, rows: int) -> nat
    decreases rows,
{
    if rows <= 0 {
        0
    } else {
        conflicts_below(state, rows - 1) + conflicts_after(state, rows - 1, SIZE as int)
    }
}

/// The energy of a state: the number of unordered pairs of rows whose queens
/// attack each other.
pub open spec fn energy(state: Seq<u8>) -> nat {
    conflicts_below(state, SIZE as int)
}

/// Whether no two queens attack each other.
pub open spec fn peaceful(state: Seq<u8>) -> bool {
    forall|i: int, j: int| 0 <= i < j < SIZE ==> !attacks(state, i, j)
}

/// Whether some other queen attacks the queen of row `i`.
pub open spec fn under_attack(state: Seq<u8>, i: int) -> bool {
    exists|j: int| 0 <= j < SIZE && j != i && attacks(state, i, j)
}

/// The state after `m`.
pub open spec fn moved(state: Seq<u8>, m: QueenMove) -> Seq<u8> {
    state.update(m.row as int, m.column)
}

/// The state after one decision on `m`: the move stands if it does not raise
/// the energy, or if the draw took it all the same.
pub open spec fn settled(state: Seq<u8>, m: QueenMove, uphill_taken: bool) -> Seq<u8> {
    if energy(moved(state, m)) <= energy(state) || uphill_taken {
        moved(state, m)
    } else {
        state
    }
}

/// The state after `trials`, each of them a move and whether the draw takes
/// it if it raises the energy.
pub open spec fn after_trials(start: Seq<u8>, trials: Seq<(QueenMove, bool)>) -> Seq<u8>
    decreases trials.len(),
{
    if trials.len() == 0 {
        start
    } else {
        settled(after_trials(start, trials.drop_last()), trials.last().0, trials.last().1)
    }
}

/// Whether the move of a trial takes a queen of the board to another column of
/// the board.
pub open spec fn proper_move(state: Seq<u8>, m: QueenMove) -> bool {
    m.row < SIZE && m.column < SIZE && m.column != state[m.row as int]
}

/// Whether an attempt from `start` can go through `trials`: each is made
/// while the energy is not zero, and moves a queen of the board to another
/// column of the board.
pub open spec fn is_course(start: Seq<u8>, trials: Seq<(QueenMove, bool)>) -> bool {
    forall|k: int|
        0 <= k < trials.len() ==> energy(after_trials(start, #[trigger] trials.take(k))) != 0
            && proper_move(after_trials(start, trials.take(k)), trials[k].0)
}

proof fn lemma_conflicts_after(state: Seq<u8>, i: int, upto: int)
    requires
        0 <= i,
    ensures
        conflicts_after(state, i, upto) <= if upto > i + 1 {
            upto - i - 1
        } else {
            0
        },
        conflicts_after(state, i, upto) == 0 <==> forall|j: int|
            i < j < upto ==> !attacks(state, i, j),
    decreases upto - i,
{
    if upto > i + 1 {
        lemma_conflicts_after(state, i, upto - 1);
    }
}

proof fn lemma_conflicts_below(state: Seq<u8>, rows: int)
    requires
        0 <= rows <= SIZE,
    ensures
        conflicts_below(state, rows) <= 7 * rows,
        conflicts_below(state, rows) == 0 <==> forall|i: int, j: int|
            0 <= i < rows && i < j < SIZE ==> !attacks(state, i, j),
    decreases rows,
{
    if rows > 0 {
        lemma_conflicts_below(state, rows - 1);
        lemma_conflicts_after(state, rows - 1, SIZE as int);
    }
}

/// The energy is zero exactly when no two rows share a column or a diagonal.
pub proof fn lemma_energy_zero_iff_peaceful(state: Seq<u8>)
    ensures
        energy(state) == 0 <==> peaceful(state),
{
    lemma_conflicts_below(state, SIZE as int);
}

/// The number of pairs of rows whose lower row is below `rows`.
pub open spec fn pairs_below(rows: int) -> nat
    decreases rows,
{
    if rows <= 0 {
        0
    } else {
        (pairs_below(rows - 1) + SIZE - rows) as nat
    }
}

proof fn lemma_conflicts_are_pairs(state: Seq<u8>, rows: int)
    requires
        0 <= rows <= SIZE,
    ensures
        conflicts_below(state, rows) <= pairs_below(rows),
    decreases rows,
{
    if rows > 0 {
        lemma_conflicts_are_pairs(state, rows - 1);
        lemma_conflicts_after(state, rows - 1, SIZE as int);
    }
}

/// The energy is at most the number of pairs of rows.
pub proof fn lemma_energy_at_most_all_pairs(state: Seq<u8>)
    ensures
        energy(state) <= 28,
{
    lemma_conflicts_are_pairs(state, SIZE as int);
    reveal_with_fuel(pairs_below, 9);
}

fn attacking(state: &[u8; 8], i: usize, j: usize) -> (hit: bool)
    requires
        i < j < SIZE,
    ensures
        hit == attacks(state@, i as int, j as int),
{
    let a: u8 = state[i];
    let b: u8 = state[j];
    let gap: u8 = if a >= b {
        a - b
    } else {
        b - a
    };
    a == b || gap as usize == j - i
}

/// Counts the pairs of queens that attack each other.
pub fn queen_conflict_count(state: &[u8; 8]) -> (conflicts: usize)
    ensures
        conflicts == energy(state@),
        conflicts == 0 <==> peaceful(state@),
        conflicts <= 28,
{
    let mut conflicts: usize = 0;
    let mut i: usize = 0;
    while i < SIZE
        invariant
            i <= SIZE,
            conflicts == conflicts_below(state@, i as int),
        decreases SIZE - i,
    {
        let mut j: usize = i + 1;
        let ghost before: nat = conflicts as nat;
        proof {
            lemma_conflicts_below(state@, i as int);
        }
        while j < SIZE
            invariant
                i < SIZE,
                i < j <= SIZE,
                before <= 7 * i,
                conflicts == before + conflicts_after(state@, i as int, j as int),
            decreases SIZE - j,
        {
            proof {
                lemma_conflicts_after(state@, i as int, j as int);
            }
            if attacking(state, i, j) {
                conflicts += 1;
            }
            j += 1;
        }
        i += 1;
    }
    proof {
        lemma_energy_zero_iff_peaceful(state@);
        lemma_energy_at_most_all_pairs(state@);
    }
    conflicts
}

/// Marks the queens that take part in a conflict.
pub fn conflict_mask(state: &[u8; 8]) -> (mask: [bool; 8])
    ensures
        forall|k: int| 0 <= k < SIZE ==> (mask@[k] <==> under_attack(state@, k)),
{
    let mut mask: [bool; 8] = [false;8];
    let mut i: usize = 0;
    while i < SIZE
        invariant
            i <= SIZE,
            forall|k: int|
                0 <= k < SIZE ==> (mask@[k] <==> exists|a: int, b: int|
                    0 <= a < b < SIZE && a < i && (k == a || k == b) && attacks(state@, a, b)),
        decreases SIZE - i,
    {
        let mut j: usize = i + 1;
        while j < SIZE
            invariant
                i < SIZE,
                i < j <= SIZE,
                forall|k: int|
                    0 <= k < SIZE ==> (mask@[k] <==> exists|a: int, b: int|
                        0 <= a < b < SIZE && (a < i || (a == i && b < j)) && (k == a || k == b)
                            && attacks(state@, a, b)),
            decreases SIZE - j,
        {
            if attacking(state, i, j) {
                mask[i] = true;
                mask[j] = true;
            }
            j += 1;
        }
        i += 1;
    }
    assert forall|k: int| 0 <= k < SIZE implies (mask@[k] <==> under_attack(state@, k)) by {
        if under_attack(state@, k) {
            let j: int = choose|j: int| 0 <= j < SIZE && j != k && attacks(state@, k, j);
            if j < k {
                assert(attacks(state@, j, k));
            } else {
                assert(attacks(state@, k, j));
            }
        }
        if mask@[k] {
            let (a, b): (int, int) = choose|a: int, b: int|
                0 <= a < b < SIZE && a < i && (k == a || k == b) && attacks(state@, a, b);
            if k == a {
                assert(attacks(state@, k, b));
            } else {
                assert(attacks(state@, k, a));
            }
        }
    }
    mask
}

/// A fresh starting state: the columns `0..8` in a random order, so that only
/// diagonals can clash.
pub fn random_queen_state(rng: &mut StdRng) -> (state: [u8; 8])
    ensures
        placement(state@),
        state@.no_duplicates(),
{
    let mut columns: Vec<u8> = Vec::new();
    let mut value: u8 = 0;
    while value < 8
        invariant
            value <= 8,
            columns@.len() == value,
            forall|k: int| 0 <= k < value ==> columns@[k] == k,
        decreases 8 - value,
    {
        columns.push(value);
        value += 1;
    }
    let ghost ordered: Seq<u8> = columns@;
    shuffle(&mut columns, rng);
    proof {
        lemma_rearranged(ordered, columns@);
        assert forall|k: int| 0 <= k < 8 implies columns@[k] < 8 by {
            assert(columns@.contains(columns@[k]));
        }
    }
    let mut state: [u8; 8] = [0u8;8];
    let mut row: usize = 0;
    while row < SIZE
        invariant
            row <= SIZE,
            columns@.len() == SIZE,
            forall|k: int| 0 <= k < row ==> state@[k] == columns@[k],
        decreases SIZE - row,
    {
        state[row] = columns[row];
        row += 1;
    }
    assert(state@ =~= columns@);
    state
}

/// Picks a row at random and, for its queen, a column other than the one it
/// stands on: every proposal changes the state.
pub fn propose_move(state: &[u8; 8], rng: &mut StdRng) -> (m: QueenMove)
    ensures
        proper_move(state@, m),
{
    let row: usize = uniform_below(rng, SIZE);
    let current: u8 = state[row];
    let column: usize = draw_other(rng, SIZE, current as usize);
    QueenMove { row, column: column as u8 }
}

/// Makes the move, then keeps or undoes it. A move that does not raise the
/// energy is kept. One that does is kept with the odds that the schedule
/// gives; if the draw says no, the queen goes back and the state is as it was.
///
/// Returns the energy of the state that results.
pub fn decide_move<S: Schedule>(
    state: &mut [u8; 8],
    energy: usize,
    m: QueenMove,
    schedule: &S,
    rng: &mut StdRng,
) -> (next: usize)
    requires
        m.row < SIZE,
        energy == self::energy(old(state)@),
    ensures
        next == self::energy(final(state)@),
        final(state)@ == settled(old(state)@, m, true) || final(state)@ == settled(
            old(state)@,
            m,
            false,
        ),
{
    let previous: u8 = state[m.row];
    state[m.row] = m.column;
    let raised: usize = queen_conflict_count(state);
    let keep: bool = if raised <= energy {
        true
    } else {
        draw(rng, &schedule.acceptance(raised - energy))
    };
    if keep {
        raised
    } else {
        state[m.row] = previous;
        assert(state@ =~= old(state)@);
        energy
    }
}

/// What one more trial does to a course and to the state it leads to.
proof fn lemma_course_extended(
    start: Seq<u8>,
    trials: Seq<(QueenMove, bool)>,
    m: QueenMove,
    taken: bool,
)
    requires
        is_course(start, trials),
        energy(after_trials(start, trials)) != 0,
        proper_move(after_trials(start, trials), m),
    ensures
        is_course(start, trials.push((m, taken))),
        after_trials(start, trials.push((m, taken))) == settled(
            after_trials(start, trials),
            m,
            taken,
        ),
{
    let longer: Seq<(QueenMove, bool)> = trials.push((m, taken));
    assert(longer.drop_last() =~= trials);
    assert forall|k: int| 0 <= k < longer.len() implies energy(
        after_trials(start, #[trigger] longer.take(k)),
    ) != 0 && proper_move(after_trials(start, longer.take(k)), longer[k].0) by {
        if k < trials.len() {
            assert(longer.take(k) =~= trials.take(k));
            assert(longer[k] == trials[k]);
        } else {
            assert(longer.take(k) =~= trials);
        }
    }
}

/// Whether `found` is what an attempt from `start` gives that goes through
/// `trials`: a run of as many steps, fewer than the budget, if the energy is
/// zero after them, and nothing if they use up the budget.
pub open spec fn attempt_gives(
    start: Seq<u8>,
    trials: Seq<(QueenMove, bool)>,
    max_steps: usize,
    found: Option<QueenRun>,
) -> bool {
    &&& is_course(start, trials)
    &&& match found {
        Some(run) => {
            &&& run.steps == trials.len()
            &&& run.steps < max_steps
            &&& run.state@ == after_trials(start, trials)
            &&& energy(run.state@) == 0
        },
        None => trials.len() == max_steps,
    }
}

/// Whether `found` is what an attempt from some fresh state gives.
pub open spec fn is_attempt(max_steps: usize, found: Option<QueenRun>) -> bool {
    exists|start: Seq<u8>, trials: Seq<(QueenMove, bool)>|
        placement(start) && start.no_duplicates() && #[trigger] attempt_gives(
            start,
            trials,
            max_steps,
            found,
        )
}

/// A course from a state on the board leads to a state on the board.
pub proof fn lemma_course_stays_on_board(start: Seq<u8>, trials: Seq<(QueenMove, bool)>)
    requires
        placement(start),
        is_course(start, trials),
    ensures
        placement(after_trials(start, trials)),
    decreases trials.len(),
{
    if trials.len() > 0 {
        let front: Seq<(QueenMove, bool)> = trials.drop_last();
        assert forall|k: int| 0 <= k < front.len() implies energy(
            after_trials(start, #[trigger] front.take(k)),
        ) != 0 && proper_move(after_trials(start, front.take(k)), front[k].0) by {
            assert(front.take(k) =~= trials.take(k));
        }
        lemma_course_stays_on_board(start, front);
        assert(trials.take(trials.len() - 1) =~= front);
        assert(proper_move(after_trials(start, front), trials[trials.len() - 1].0));
    }
}

/// One attempt from `start`: up to `config.max_steps` iterations, each of
/// which ends at once when the energy is zero and otherwise proposes one
/// move, decides on it and lets the schedule cool.
pub fn anneal_from<S: Schedule>(
    start: [u8; 8],
    config: &QueensConfig,
    schedule: &mut S,
    rng: &mut StdRng,
) -> (found: Option<QueenRun>)
    ensures
        exists|trials: Seq<(QueenMove, bool)>| #[trigger]
            attempt_gives(start@, trials, config.max_steps, found),
        found matches Some(run) ==> peaceful(run.state@) && run.steps < config.max_steps && (
        placement(start@) ==> placement(run.state@)) && (run.steps == 0 <==> peaceful(start@)),
        peaceful(start@) && config.max_steps > 0 ==> found == Some(
            (QueenRun { state: start, steps: 0 }),
        ),
        config.max_steps == 0 ==> found is None,
{
    let mut state: [u8; 8] = start;
    let mut energy: usize = queen_conflict_count(&state);
    schedule.restart();
    let mut step: usize = 0;
    let ghost mut trials: Seq<(QueenMove, bool)> = Seq::empty();
    while step < config.max_steps
        invariant
            step <= config.max_steps,
            energy == self::energy(state@),
            placement(start@) ==> placement(state@),
            step == 0 ==> state == start,
            step > 0 ==> !peaceful(start@),
            trials.len() == step,
            state@ == after_trials(start@, trials),
            is_course(start@, trials),
        decreases config.max_steps - step,
    {
        proof {
            lemma_energy_zero_iff_peaceful(state@);
        }
        if energy == 0 {
            let found: Option<QueenRun> = Some(QueenRun { state, steps: step });
            assert(attempt_gives(start@, trials, config.max_steps, found));
            return found;
        }
        let ghost before: Seq<u8> = state@;
        let m: QueenMove = propose_move(&state, rng);
        energy = decide_move(&mut state, energy, m, schedule, rng);
        schedule.cool();
        step += 1;
        proof {
            let taken: bool = state@ == settled(before, m, true);
            assert(state@ == settled(before, m, taken));
            lemma_course_extended(start@, trials, m, taken);
            trials = trials.push((m, taken));
        }
    }
    assert(attempt_gives(start@, trials, config.max_steps, None));
    None
}

/// One attempt from a random starting state.
pub fn solve_single<S: Schedule>(
    config: &QueensConfig,
    schedule: &mut S,
    rng: &mut StdRng,
) -> (found: Option<QueenRun>)
    ensures
        is_attempt(config.max_steps, found),
        found matches Some(run) ==> placement(run.state@) && peaceful(run.state@) && run.steps
            < config.max_steps,
        config.max_steps == 0 ==> found is None,
{
    let start: [u8; 8] = random_queen_state(rng);
    anneal_from(start, config, schedule, rng)
}

/// Whether `state` is the state of one of `runs`.
pub open spec fn found_in(runs: Seq<QueenRun>, state: Seq<u8>) -> bool {
    exists|k: int| 0 <= k < runs.len() && #[trigger] runs[k].state@ == state
}

/// Whether no two of `runs` have the same state.
pub open spec fn distinct_states(runs: Seq<QueenRun>) -> bool {
    forall|i: int, j: int| 0 <= i < j < runs.len() ==> runs[i].state@ != runs[j].state@
}

/// The steps of `runs`, added up.
pub open spec fn kept_steps(runs: Seq<QueenRun>) -> nat
    decreases runs.len(),
{
    if runs.len() == 0 {
        0
    } else {
        kept_steps(runs.drop_last()) + runs.last().steps as nat
    }
}

/// Whether every one of `runs` is a solution found within `max_steps`.
pub open spec fn all_solved(runs: Seq<QueenRun>, max_steps: usize) -> bool {
    forall|k: int|
        0 <= k < runs.len() ==> placement(#[trigger] runs[k].state@) && peaceful(runs[k].state@)
            && runs[k].steps < max_steps
}

/// The columns of a state read as the digits of one number, base 256.
pub open spec fn state_key(state: Seq<u8>) -> nat {
    (state[0] + 0x100 * state[1] + 0x1_0000 * state[2] + 0x100_0000 * state[3] + 0x1_0000_0000
        * state[4] + 0x100_0000_0000 * state[5] + 0x1_0000_0000_0000 * state[6]
        + 0x100_0000_0000_0000 * state[7]) as nat
}

proof fn lemma_lowest_digit(x: int, y: int, p: int, q: int)
    requires
        0 <= x < 0x100,
        0 <= y < 0x100,
        x + 0x100 * p == y + 0x100 * q,
    ensures
        x == y,
        p == q,
{
}

/// Two states with the same key are the same state.
pub proof fn lemma_state_key_injective(a: Seq<u8>, b: Seq<u8>)
    requires
        a.len() == SIZE,
        b.len() == SIZE,
        state_key(a) == state_key(b),
    ensures
        a == b,
{
    let a6: int = a[6] + 0x100 * a[7];
    let b6: int = b[6] + 0x100 * b[7];
    let a5: int = a[5] + 0x100 * a6;
    let b5: int = b[5] + 0x100 * b6;
    let a4: int = a[4] + 0x100 * a5;
    let b4: int = b[4] + 0x100 * b5;
    let a3: int = a[3] + 0x100 * a4;
    let b3: int = b[3] + 0x100 * b4;
    let a2: int = a[2] + 0x100 * a3;
    let b2: int = b[2] + 0x100 * b3;
    let a1: int = a[1] + 0x100 * a2;
    let b1: int = b[1] + 0x100 * b2;
    lemma_lowest_digit(a[0] as int, b[0] as int, a1, b1);
    lemma_lowest_digit(a[1] as int, b[1] as int, a2, b2);
    lemma_lowest_digit(a[2] as int, b[2] as int, a3, b3);
    lemma_lowest_digit(a[3] as int, b[3] as int, a4, b4);
    lemma_lowest_digit(a[4] as int, b[4] as int, a5, b5);
    lemma_lowest_digit(a[5] as int, b[5] as int, a6, b6);
    lemma_lowest_digit(a[6] as int, b[6] as int, a[7] as int, b[7] as int);
    assert(a =~= b);
}

fn key_of(state: &[u8; 8]) -> (key: u64)
    ensures
        key == state_key(state@),
{
    state[0] as u64 + 0x100 * (state[1] as u64) + 0x1_0000 * (state[2] as u64) + 0x100_0000 * (
    state[3] as u64) + 0x1_0000_0000 * (state[4] as u64) + 0x100_0000_0000 * (state[5] as u64)
        + 0x1_0000_0000_0000 * (state[6] as u64) + 0x100_0000_0000_0000 * (state[7] as u64)
}

/// Gathers the outcomes of attempts, keeping the first run of every state.
pub struct Collector {
    result: CollectionResult,
    seen: HashSet<u64>,
}

impl Collector {
    /// The runs kept so far, in the order in which they were found.
    pub closed spec fn runs(&self) -> Seq<QueenRun> {
        self.result.runs@
    }

    /// The number of outcomes recorded.
    pub closed spec fn restarts(&self) -> nat {
        self.result.restarts as nat
    }

    /// The steps of all successful attempts, kept or not.
    pub closed spec fn total_steps(&self) -> nat {
        self.result.total_steps as nat
    }

    /// The keys of the kept runs are exactly the keys seen.
    pub closed spec fn wf(&self) -> bool {
        &&& distinct_states(self.result.runs@)
        &&& forall|key: u64|
            self.seen@.contains(key) <==> exists|k: int|
                0 <= k < self.result.runs@.len() && state_key(
                    #[trigger] self.result.runs@[k].state@,
                ) == key
    }

    /// A collector that has seen nothing.
    pub fn new() -> (collector: Collector)
        ensures
            collector.wf(),
            distinct_states(collector.runs()),
            collector.runs() == Seq::<QueenRun>::empty(),
            collector.restarts() == 0,
            collector.total_steps() == 0,
    {
        Collector {
            result: CollectionResult { runs: Vec::new(), restarts: 0, total_steps: 0 },
            seen: HashSet::new(),
        }
    }

    /// The number of runs kept.
    pub fn len(&self) -> (n: usize)
        ensures
            n == self.runs().len(),
    {
        self.result.runs.len()
    }

    /// The number of outcomes recorded.
    pub fn attempts(&self) -> (n: usize)
        ensures
            n == self.restarts(),
    {
        self.result.restarts
    }

    /// Records the outcome of one attempt. Every outcome counts as a restart,
    /// every success adds its steps to the total, and a success is kept if no
    /// run with the same state was kept before.
    pub fn record(&mut self, outcome: Option<QueenRun>)
        requires
            old(self).wf(),
            old(self).restarts() < usize::MAX,
            outcome matches Some(run) ==> old(self).total_steps() + run.steps <= usize::MAX,
        ensures
            final(self).wf(),
            distinct_states(final(self).runs()),
            final(self).restarts() == old(self).restarts() + 1,
            final(self).total_steps() == old(self).total_steps() + match outcome {
                Some(run) => run.steps as nat,
                None => 0nat,
            },
            final(self).runs() == match outcome {
                Some(run) => if found_in(old(self).runs(), run.state@) {
                    old(self).runs()
                } else {
                    old(self).runs().push(run)
                },
                None => old(self).runs(),
            },
    {
        broadcast use vstd::std_specs::hash::group_hash_axioms;

        self.result.restarts += 1;
        if let Some(run) = outcome {
            self.result.total_steps += run.steps;
            let key: u64 = key_of(&run.state);
            let ghost kept: Seq<QueenRun> = self.result.runs@;
            if self.seen.insert(key) {
                assert(!found_in(kept, run.state@)) by {
                    if found_in(kept, run.state@) {
                        let k: int = choose|k: int|
                            0 <= k < kept.len() && #[trigger] kept[k].state@ == run.state@;
                        assert(state_key(kept[k].state@) == key);
                    }
                }
                self.result.runs.push(run);
                assert forall|other: u64|
                    self.seen@.contains(other) <==> exists|k: int|
                        0 <= k < self.result.runs@.len() && state_key(
                            #[trigger] self.result.runs@[k].state@,
                        ) == other by {
                    if other == key {
                        assert(state_key(self.result.runs@[kept.len() as int].state@) == other);
                    } else if old(self).seen@.contains(other) {
                        let k: int = choose|k: int|
                            0 <= k < kept.len() && state_key(#[trigger] kept[k].state@) == other;
                        assert(state_key(self.result.runs@[k].state@) == other);
                    }
                }
            } else {
                assert(found_in(kept, run.state@)) by {
                    let k: int = choose|k: int|
                        0 <= k < kept.len() && state_key(#[trigger] kept[k].state@) == key;
                    lemma_state_key_injective(kept[k].state@, run.state@);
                }
                assert(self.seen@ =~= old(self).seen@);
            }
        }
    }

    /// Hands out what was gathered.
    pub fn finish(self) -> (result: CollectionResult)
        requires
            self.wf(),
        ensures
            result.runs@ == self.runs(),
            result.restarts == self.restarts(),
            result.total_steps == self.total_steps(),
            distinct_states(result.runs@),
    {
        self.result
    }
}

/// The runs that are kept when `outcomes` are recorded in this order: of
/// every state the first run that has it.
pub open spec fn kept_runs(outcomes: Seq<Option<QueenRun>>) -> Seq<QueenRun>
    decreases outcomes.len(),
{
    if outcomes.len() == 0 {
        Seq::empty()
    } else {
        let before: Seq<QueenRun> = kept_runs(outcomes.drop_last());
        match outcomes.last() {
            Some(run) => if found_in(before, run.state@) {
                before
            } else {
                before.push(run)
            },
            None => before,
        }
    }
}

/// The steps of the successful ones among `outcomes`, added up.
pub open spec fn spent_steps(outcomes: Seq<Option<QueenRun>>) -> nat
    decreases outcomes.len(),
{
    if outcomes.len() == 0 {
        0
    } else {
        spent_steps(outcomes.drop_last()) + match outcomes.last() {
            Some(run) => run.steps as nat,
            None => 0nat,
        }
    }
}

/// Whether `result` is what a collection gives whose attempts ended in
/// `outcomes`: every attempt was made while the target and the budget of
/// restarts were not reached, the collection stopped when one of them was,
/// and it recorded each outcome as it came.
pub open spec fn collects(
    outcomes: Seq<Option<QueenRun>>,
    target: usize,
    max_restarts: usize,
    max_steps: usize,
    result: CollectionResult,
) -> bool {
    &&& outcomes.len() == result.restarts
    &&& result.restarts <= max_restarts
    &&& result.runs@ == kept_runs(outcomes)
    &&& result.total_steps == spent_steps(outcomes)
    &&& result.runs@.len() >= target || result.restarts == max_restarts
    &&& forall|k: int|
        0 <= k < outcomes.len() ==> kept_runs(#[trigger] outcomes.take(k)).len() < target
    &&& forall|k: int| 0 <= k < outcomes.len() ==> is_attempt(max_steps, #[trigger] outcomes[k])
}

/// What one more outcome does to the runs kept and to the steps spent.
proof fn lemma_outcome_recorded(outcomes: Seq<Option<QueenRun>>, outcome: Option<QueenRun>)
    ensures
        kept_runs(outcomes.push(outcome)) == match outcome {
            Some(run) => if found_in(kept_runs(outcomes), run.state@) {
                kept_runs(outcomes)
            } else {
                kept_runs(outcomes).push(run)
            },
            None => kept_runs(outcomes),
        },
        spent_steps(outcomes.push(outcome)) == spent_steps(outcomes) + match outcome {
            Some(run) => run.steps as nat,
            None => 0nat,
        },
        forall|k: int|
            0 <= k <= outcomes.len() ==> #[trigger] outcomes.push(outcome).take(k)
                == outcomes.take(k),
{
    let longer: Seq<Option<QueenRun>> = outcomes.push(outcome);
    assert(longer.drop_last() =~= outcomes);
    assert forall|k: int| 0 <= k <= outcomes.len() implies #[trigger] longer.take(k)
        == outcomes.take(k) by {
        assert(longer.take(k) =~= outcomes.take(k));
    }
}

/// Whatever the outcomes, no two of the runs kept have the same state.
pub proof fn lemma_kept_runs_distinct(outcomes: Seq<Option<QueenRun>>)
    ensures
        distinct_states(kept_runs(outcomes)),
    decreases outcomes.len(),
{
    if outcomes.len() > 0 {
        lemma_kept_runs_distinct(outcomes.drop_last());
        let before: Seq<QueenRun> = kept_runs(outcomes.drop_last());
        let after: Seq<QueenRun> = kept_runs(outcomes);
        assert forall|i: int, j: int| 0 <= i < j < after.len() implies after[i].state@
            != after[j].state@ by {
            if j < before.len() {
                assert(before[i].state@ != before[j].state@);
            } else {
                assert(before[i].state@ == after[i].state@);
            }
        }
    }
}

/// Runs attempts from fresh random states until `target` different solutions
/// are found or `max_restarts` attempts are spent. A solution found again is
/// counted, in the restarts and in the steps, and not listed twice.
pub fn collect_solutions<S: Schedule>(
    target: usize,
    max_restarts: usize,
    config: &QueensConfig,
    schedule: &mut S,
    rng: &mut StdRng,
) -> (result: CollectionResult)
    requires
        max_restarts * config.max_steps <= usize::MAX,
    ensures
        exists|outcomes: Seq<Option<QueenRun>>| #[trigger]
            collects(outcomes, target, max_restarts, config.max_steps, result),
        result.restarts <= max_restarts,
        result.runs@.len() <= target,
        result.runs@.len() <= result.restarts,
        result.runs@.len() == target || result.restarts == max_restarts,
        result.restarts == 0 <==> target == 0 || max_restarts == 0,
        distinct_states(result.runs@),
        all_solved(result.runs@, config.max_steps),
        kept_steps(result.runs@) <= result.total_steps <= result.restarts * config.max_steps,
{
    let mut collector: Collector = Collector::new();
    let ghost mut outcomes: Seq<Option<QueenRun>> = Seq::empty();
    while collector.len() < target && collector.attempts() < max_restarts
        invariant
            collector.wf(),
            outcomes.len() == collector.restarts(),
            collector.runs() == kept_runs(outcomes),
            collector.total_steps() == spent_steps(outcomes),
            forall|k: int|
                0 <= k < outcomes.len() ==> kept_runs(#[trigger] outcomes.take(k)).len() < target,
            forall|k: int|
                0 <= k < outcomes.len() ==> is_attempt(config.max_steps, #[trigger] outcomes[k]),
            collector.restarts() <= max_restarts,
            collector.runs().len() <= target,
            collector.runs().len() <= collector.restarts(),
            collector.restarts() > 0 ==> target > 0 && max_restarts > 0,
            all_solved(collector.runs(), config.max_steps),
            kept_steps(collector.runs()) <= collector.total_steps() <= collector.restarts()
                * config.max_steps,
            max_restarts * config.max_steps <= usize::MAX,
        decreases max_restarts - collector.restarts(),
    {
        let outcome: Option<QueenRun> = solve_single(config, schedule, rng);
        let ghost spent: int = collector.restarts() as int;
        let ghost kept: Seq<QueenRun> = collector.runs();
        assert((spent + 1) * config.max_steps == spent * config.max_steps + config.max_steps
            && (spent + 1) * config.max_steps <= max_restarts * config.max_steps)
            by (nonlinear_arith)
            requires
                0 <= spent < max_restarts,
        ;
        collector.record(outcome);
        proof {
            if collector.runs() != kept {
                assert(collector.runs().drop_last() == kept);
            }
            let ghost earlier: Seq<Option<QueenRun>> = outcomes;
            lemma_outcome_recorded(earlier, outcome);
            outcomes = earlier.push(outcome);
            assert(earlier.take(earlier.len() as int) =~= earlier);
            assert forall|k: int| 0 <= k < outcomes.len() implies kept_runs(
                #[trigger] outcomes.take(k),
            ).len() < target by {
                assert(outcomes.take(k) == earlier.take(k));
            }
            assert forall|k: int| 0 <= k < outcomes.len() implies is_attempt(
                config.max_steps,
                #[trigger] outcomes[k],
            ) by {
                if k < earlier.len() {
                    assert(outcomes[k] == earlier[k]);
                }
            }
        }
    }
    let result: CollectionResult = collector.finish();
    assert(collects(outcomes, target, max_restarts, config.max_steps, result));
    result
}

} // verus!
