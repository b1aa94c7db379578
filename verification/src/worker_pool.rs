use vstd::prelude::*;

use crate::board::Board;
use crate::board_description::BoardDescription;
use crate::dart_board::DartBoard;
use crate::direction::Direction;
use crate::noise_reduction::asthetic_cleanup;
use crate::pos::Pos;
use crate::ranked_set::{
    entries_sorted, pair_le, ranked_entries, rs_first, rs_insert, rs_len, rs_new, rs_pop,
    rs_remove_first,
};
use crate::solver::{analyze, route_coords_bounded, scoreable, Analysis};

verus! {

broadcast use vstd::seq_lib::group_to_multiset_ensures;

/// A control message for one worker: stop for good, or pause for a while.
pub enum CtrlMsg {
    Kill,
    Halt(usize),
}

/// One scored room waiting in the ranked result set.
pub struct Candidate {
    pub fitness: u64,
    pub board: Board,
    pub analysis: Analysis,
}

/// A candidate fit to hand on: a well-formed room with its gates and a
/// scoreable analysis.
pub open spec fn cand_ok(c: Candidate) -> bool {
    &&& c.board.wf()
    &&& 1 <= c.board.gates@.len() <= 10000
    &&& c.analysis.optimal_movement_count <= 100000
    &&& scoreable(c.analysis, c.analysis.routes@)
    &&& forall|j: int|
        0 <= j < c.analysis.routes@[0]@.len() ==> route_coords_bounded(
            (#[trigger] c.analysis.routes@[0]@[j]).solution@,
        )
}

/// A candidate of the given fitness, above the worker's threshold, went
/// into the ranked set exactly as `submit` promises, and the returned value
/// is the set's new cutoff.
pub open spec fn filed_over(
    prev: SearchPool,
    cur: SearchPool,
    f: u64,
    fitness_filter: u64,
    r: u64,
) -> bool {
    &&& f > fitness_filter
    &&& (ranked_entries(cur.results).len() == vstd::math::min(
        ranked_entries(prev.results).len() as int + 1,
        prev.result_max_size as int,
    ) || (ranked_entries(cur.results).len() == ranked_entries(prev.results).len() + 1
        && ranked_entries(cur.results).len() <= prev.result_max_size))
    &&& fitnesses(ranked_entries(cur.results)).to_multiset().subset_of(
        fitnesses(ranked_entries(prev.results)).to_multiset().insert(f),
    )
    &&& forall|a: u64, b: u64|
        #![trigger fitnesses(ranked_entries(cur.results)).to_multiset().count(b), fitnesses(ranked_entries(prev.results)).to_multiset().count(a)]
        fitnesses(ranked_entries(prev.results)).to_multiset().insert(f).count(a) > fitnesses(
            ranked_entries(cur.results),
        ).to_multiset().count(a) && fitnesses(ranked_entries(cur.results)).to_multiset().count(
            b,
        ) > 0 ==> a <= b
    &&& ranked_entries(cur.results).len() > 0 ==> r == ranked_entries(cur.results)[0].0
}

/// What a consumer's request for a new room yields.
pub enum AutoGenOutput {
    NotReady,
    Ready(DartBoard),
    NoMoreBufferedBoards,
}

/// The fitness keys of the ranked entries, in stored order.
pub open spec fn fitnesses(s: Seq<(u64, u64)>) -> Seq<u64> {
    s.map_values(|e: (u64, u64)| e.0)
}

/// Whether a stored slot holds a fit candidate with the given fitness.
pub open spec fn slot_ok(s: Option<Candidate>, fit: u64) -> bool {
    s matches Option::Some(c) && c.fitness == fit && cand_ok(c)
}

/// The shared state of a candidate search: the bounded ranked result set
/// (fitness-keyed entries pointing into candidate slots), the description
/// workers generate from, the remaining capacity, and how many workers are
/// live.
pub struct SearchPool {
    pub results: sorted_vec::partial::SortedSet<(u64, u64)>,
    pub slots: Vec<Option<Candidate>>,
    pub board_desc: Option<BoardDescription>,
    pub result_max_size: usize,
    pub worker_count: usize,
}

impl SearchPool {
    /// The entries are sorted, point at distinct live slots, and each slot
    /// holds the candidate its entry scores.
    pub open spec fn wf(&self) -> bool {
        let entries = ranked_entries(self.results);
        &&& self.slots@.len() <= 1000000000
        &&& entries_sorted(entries)
        &&& forall|i: int|
            0 <= i < entries.len() ==> (#[trigger] entries[i]).1 < self.slots@.len()
        &&& forall|i: int, j: int|
            0 <= i < j < entries.len() ==> (#[trigger] entries[i]).1 != (
            #[trigger] entries[j]).1
        &&& forall|i: int|
            0 <= i < entries.len() ==> slot_ok(
                self.slots@[(#[trigger] entries[i]).1 as int],
                entries[i].0,
            )
    }

    /// An idle pool: no results, no description, no capacity, no workers.
    pub fn new() -> (r: SearchPool)
        ensures
            r.wf(),
            ranked_entries(r.results).len() == 0,
            r.board_desc is None,
            r.result_max_size == 0,
            r.worker_count == 0,
    {
        SearchPool {
            results: rs_new(),
            slots: Vec::new(),
            board_desc: Option::None,
            result_max_size: 0,
            worker_count: 0,
        }
    }

    /// Files a candidate into the ranked set, evicting the weakest entries
    /// (and freeing their stored rooms) while the set runs over its
    /// capacity, and reports the fitness a fresh candidate now has to beat.
    ///
    /// The surviving fitness keys are drawn from the old ones plus the new
    /// candidate's, the set ends at its capacity unless it still had room,
    /// and every fitness dropped is at most every fitness kept.
    #[verifier::loop_isolation(false)]
    #[verifier::rlimit(100)]
    pub fn submit(&mut self, candidate: Candidate) -> (r: u64)
        requires
            old(self).wf(),
            cand_ok(candidate),
            old(self).slots@.len() < 1000000000,
        ensures
            final(self).wf(),
            final(self).result_max_size == old(self).result_max_size,
            final(self).board_desc == old(self).board_desc,
            final(self).worker_count == old(self).worker_count,
            ranked_entries(final(self).results).len() == vstd::math::min(
                ranked_entries(old(self).results).len() as int + 1,
                old(self).result_max_size as int,
            ) || (ranked_entries(final(self).results).len() == ranked_entries(
                old(self).results,
            ).len() + 1 && ranked_entries(final(self).results).len()
                <= old(self).result_max_size),
            fitnesses(ranked_entries(final(self).results)).to_multiset().subset_of(
                fitnesses(ranked_entries(old(self).results)).to_multiset().insert(
                    candidate.fitness,
                ),
            ),
            forall|a: u64, b: u64|
                #![trigger fitnesses(ranked_entries(final(self).results)).to_multiset().count(b), fitnesses(ranked_entries(old(self).results)).to_multiset().count(a)]
                fitnesses(ranked_entries(old(self).results)).to_multiset().insert(
                    candidate.fitness,
                ).count(a) > fitnesses(ranked_entries(final(self).results)).to_multiset().count(
                    a,
                ) && fitnesses(ranked_entries(final(self).results)).to_multiset().count(b) > 0
                    ==> a <= b,
            ranked_entries(final(self).results).len() > 0 ==> r == ranked_entries(
                final(self).results,
            )[0].0,
    {
        let ghost old_entries = ranked_entries(old(self).results);
        let fit = candidate.fitness;
        let slot: usize = self.slots.len();
        self.slots.push(Option::Some(candidate));
        let pair: (u64, u64) = (fit, slot as u64);
        proof {
            assert forall|i: int| 0 <= i < old_entries.len() implies old_entries[i]
                != pair by {
                assert(old_entries[i].1 < slot as u64);
            }
            if old_entries.contains(pair) {
                let i = choose|i: int|
                    0 <= i < old_entries.len() && old_entries[i] == pair;
                assert(false);
            }
        }
        let idx = rs_insert(&mut self.results, pair);
        let ghost base = old_entries.insert(idx as int, pair);

        proof {
            assert(base.remove(idx as int) =~= old_entries);
            assert(base[idx as int] == pair);
            assert(base.to_multiset() =~= old_entries.to_multiset().insert(pair));
            lemma_base_wf(*old(self), *self, base, idx as int, pair);
        }

        let mut ret: u64 = 0;
        if rs_len(&self.results) != 0 {
            ret = rs_first(&self.results).0;
        }
        let ghost mut dropped: int = 0;
        while rs_len(&self.results) > self.result_max_size
            invariant
                0 <= dropped <= base.len(),
                ranked_entries(self.results) == base.skip(dropped),
                self.slots@.len() == old(self).slots@.len() + 1,
                self.result_max_size == old(self).result_max_size,
                self.board_desc == old(self).board_desc,
                self.worker_count == old(self).worker_count,
                entries_sorted(base),
                self.wf(),
                dropped > 0 ==> ranked_entries(self.results).len()
                    >= self.result_max_size,
                ranked_entries(self.results).len() > 0 ==> ret == ranked_entries(
                    self.results,
                )[0].0,
            decreases ranked_entries(self.results).len(),
        {
            let ghost pre_entries = ranked_entries(self.results);
            let gone = rs_remove_first(&mut self.results);
            proof {
                assert(base.skip(dropped).drop_first() =~= base.skip(dropped + 1));
                dropped = dropped + 1;
                assert(gone == pre_entries[0]);
                assert(gone.1 < self.slots@.len());
            }
            let gone_slot = gone.1 as usize;
            self.slots.set(gone_slot, Option::None);
            proof {
                let kept = ranked_entries(self.results);
                assert forall|i: int| 0 <= i < kept.len() implies slot_ok(
                    self.slots@[(#[trigger] kept[i]).1 as int],
                    kept[i].0,
                ) by {
                    assert(kept[i] == pre_entries[i + 1]);
                    assert(pre_entries[i + 1].1 != gone.1);
                }
            }
            if rs_len(&self.results) != 0 {
                ret = rs_first(&self.results).0;
            }
        }
        proof {
            lemma_suffix_facts(base, dropped);
            let oldf = fitnesses(old_entries);
            let basef = fitnesses(base);
            let keptf = fitnesses(ranked_entries(self.results));
            assert(basef =~= oldf.insert(idx as int, fit));
            assert(basef.remove(idx as int) =~= oldf);
            assert(basef[idx as int] == fit);
            assert(basef.to_multiset() =~= oldf.to_multiset().insert(fit));
            assert(keptf.to_multiset().subset_of(oldf.to_multiset().insert(fit)));
            assert forall|a: u64, b: u64|
                oldf.to_multiset().insert(fit).count(a) > keptf.to_multiset().count(a)
                    && keptf.to_multiset().count(b) > 0 implies a <= b by {
                assert(basef.to_multiset().count(a) > keptf.to_multiset().count(a));
            }
        }
        ret
    }
}

/// Inserting a fresh pair keeps the pool's slot bookkeeping intact.
proof fn lemma_base_wf(
    prev: SearchPool,
    cur: SearchPool,
    base: Seq<(u64, u64)>,
    idx: int,
    pair: (u64, u64),
)
    requires
        prev.wf(),
        0 <= idx <= ranked_entries(prev.results).len(),
        base == ranked_entries(prev.results).insert(idx, pair),
        ranked_entries(cur.results) == base,
        cur.slots@.len() == prev.slots@.len() + 1,
        pair.1 == prev.slots@.len() as u64,
        prev.slots@.len() < 1000000000,
        slot_ok(cur.slots@[pair.1 as int], pair.0),
        forall|k: int| 0 <= k < prev.slots@.len() ==> cur.slots@[k] == prev.slots@[k],
        entries_sorted(base),
        cur.result_max_size == prev.result_max_size,
    ensures
        cur.wf(),
{
    let old_entries = ranked_entries(prev.results);
    assert forall|i: int| 0 <= i < base.len() implies (#[trigger] base[i]).1
        < cur.slots@.len() by {
        if i != idx {
            let j = if i < idx {
                i
            } else {
                i - 1
            };
            assert(base[i] == old_entries[j]);
        }
    }
    assert forall|i: int, j: int| 0 <= i < j < base.len() implies (#[trigger] base[i]).1 != (
    #[trigger] base[j]).1 by {
        let oi = if i < idx {
            i
        } else {
            i - 1
        };
        let oj = if j < idx {
            j
        } else {
            j - 1
        };
        if i != idx && j != idx {
            assert(base[i] == old_entries[oi]);
            assert(base[j] == old_entries[oj]);
        } else if i == idx {
            assert(base[j] == old_entries[oj]);
            assert(old_entries[oj].1 < pair.1);
        } else {
            assert(base[i] == old_entries[oi]);
            assert(old_entries[oi].1 < pair.1);
        }
    }
    assert forall|i: int| 0 <= i < base.len() implies slot_ok(
        cur.slots@[(#[trigger] base[i]).1 as int],
        base[i].0,
    ) by {
        if i != idx {
            let j = if i < idx {
                i
            } else {
                i - 1
            };
            assert(base[i] == old_entries[j]);
            assert(old_entries[j].1 < prev.slots@.len());
        }
    }
}

/// A sorted run's surviving suffix keeps only top keys: the dropped prefix
/// keys never exceed a kept key, and the suffix keys are a sub-collection
/// of the whole.
proof fn lemma_suffix_facts(base: Seq<(u64, u64)>, dropped: int)
    requires
        entries_sorted(base),
        0 <= dropped <= base.len(),
    ensures
        fitnesses(base.skip(dropped)).to_multiset().subset_of(fitnesses(base).to_multiset()),
        forall|a: u64, b: u64|
            #![trigger fitnesses(base.skip(dropped)).to_multiset().count(b), fitnesses(base).to_multiset().count(a)]
            fitnesses(base).to_multiset().count(a) > fitnesses(
                base.skip(dropped),
            ).to_multiset().count(a) && fitnesses(base.skip(dropped)).to_multiset().count(b) > 0
                ==> a <= b,
{
    let kept = base.skip(dropped);
    let gone = base.take(dropped);
    assert(base =~= gone + kept);
    assert(fitnesses(base) =~= fitnesses(gone) + fitnesses(kept));
    vstd::seq_lib::lemma_multiset_commutative(fitnesses(gone), fitnesses(kept));
    assert(fitnesses(base).to_multiset() == fitnesses(gone).to_multiset().add(
        fitnesses(kept).to_multiset(),
    ));
    assert forall|x: u64|
        fitnesses(kept).to_multiset().count(x) <= fitnesses(base).to_multiset().count(
            x,
        ) by {}
    assert(fitnesses(kept).to_multiset().subset_of(fitnesses(base).to_multiset()));
    assert forall|a: u64, b: u64|
        fitnesses(base).to_multiset().count(a) > fitnesses(kept).to_multiset().count(a)
            && fitnesses(kept).to_multiset().count(b) > 0 implies a <= b by {
        assert(fitnesses(gone).to_multiset().count(a) > 0);
        assert(fitnesses(gone).contains(a));
        assert(fitnesses(kept).contains(b));
        let i = choose|i: int| 0 <= i < fitnesses(gone).len() && fitnesses(gone)[i] == a;
        let j = choose|j: int| 0 <= j < fitnesses(kept).len() && fitnesses(kept)[j] == b;
        assert(base[i].0 == a);
        assert(base[dropped + j].0 == b);
        assert(pair_le(base[i], base[dropped + j]));
    }
}

/// Copies a candidate field for field.
fn clone_candidate(c: &Candidate) -> (r: Candidate)
    ensures
        r.fitness == c.fitness,
        r.board.map@ == c.board.map@,
        r.board.gates@ == c.board.gates@,
        r.board.wf() == c.board.wf(),
        r.analysis.optimal_movement_count == c.analysis.optimal_movement_count,
        r.analysis.routes@.len() == c.analysis.routes@.len(),
        forall|t: int|
            0 <= t < c.analysis.routes@.len() ==> (#[trigger] r.analysis.routes@[t])@.len()
                == c.analysis.routes@[t]@.len(),
        forall|t: int, j: int|
            0 <= t < c.analysis.routes@.len() && 0 <= j < c.analysis.routes@[t]@.len() ==> (
            #[trigger] r.analysis.routes@[t]@[j]).solution@
                == c.analysis.routes@[t]@[j].solution@,
        cand_ok(*c) ==> cand_ok(r),
{
    Candidate {
        fitness: c.fitness,
        board: c.board.clone(),
        analysis: c.analysis.clone(),
    }
}

impl SearchPool {
    /// How many candidates wait in the ranked set.
    pub fn result_count(&self) -> (r: usize)
        ensures
            r == ranked_entries(self.results).len(),
    {
        rs_len(&self.results)
    }

    /// Records the search parameters and capacity, and accounts for one
    /// worker to drive the search, as the pool's part of starting a run.
    pub fn start_search(&mut self, board_desc: BoardDescription, max_buffered_boards: isize) -> (r:
        usize)
        requires
            old(self).wf(),
        ensures
            final(self).wf(),
            final(self).board_desc == Option::Some(board_desc),
            final(self).result_max_size == (if max_buffered_boards >= 0 {
                max_buffered_boards as usize
            } else {
                0
            }),
            final(self).worker_count == (if old(self).worker_count == 0 {
                1usize
            } else {
                old(self).worker_count
            }),
            r == final(self).worker_count - old(self).worker_count,
            ranked_entries(final(self).results) == ranked_entries(old(self).results),
            final(self).slots@ == old(self).slots@,
    {
        self.result_max_size = if max_buffered_boards >= 0 {
            max_buffered_boards as usize
        } else {
            0
        };
        self.board_desc = Option::Some(board_desc);
        if self.worker_count == 0 {
            self.worker_count = 1;
            1
        } else {
            0
        }
    }

    /// Retires every worker: the callers owe each one a kill message.
    pub fn stop_search(&mut self) -> (r: usize)
        requires
            old(self).wf(),
        ensures
            final(self).wf(),
            final(self).worker_count == 0,
            r == old(self).worker_count,
            ranked_entries(final(self).results) == ranked_entries(old(self).results),
            final(self).slots@ == old(self).slots@,
            final(self).board_desc == old(self).board_desc,
            final(self).result_max_size == old(self).result_max_size,
    {
        let r = self.worker_count;
        self.worker_count = 0;
        r
    }

    /// One pause message for every live worker.
    pub fn halt_search(&self, millis: usize) -> (r: Vec<CtrlMsg>)
        ensures
            r@.len() == self.worker_count,
            forall|i: int| 0 <= i < r@.len() ==> r@[i] == CtrlMsg::Halt(millis),
    {
        let mut r: Vec<CtrlMsg> = Vec::new();
        let mut i: usize = 0;
        while i < self.worker_count
            invariant
                i <= self.worker_count,
                r@.len() == i,
                forall|j: int| 0 <= j < i ==> r@[j] == CtrlMsg::Halt(millis),
            decreases self.worker_count - i,
        {
            r.push(CtrlMsg::Halt(millis));
            i = i + 1;
        }
        r
    }

    /// Pops the best-ranked candidate for the consumer: not ready while
    /// workers may still deliver, exhausted once the capacity is gone.
    /// The popped room is turned until its entry gate faces the requested
    /// way, cleaned up once more, and unpacked; popping the last buffered
    /// room retires the workers.
    #[verifier::loop_isolation(false)]
    #[verifier::rlimit(100)]
    pub fn get_new_room(&mut self, entry_direction: Direction) -> (r: AutoGenOutput)
        requires
            old(self).wf(),
        ensures
            final(self).wf(),
            r is NoMoreBufferedBoards ==> ranked_entries(old(self).results).len() == 0 && old(
                self,
            ).result_max_size == 0,
            r is NotReady ==> ranked_entries(old(self).results).len() == 0 && old(
                self,
            ).result_max_size > 0,
            r is Ready ==> ranked_entries(final(self).results) == ranked_entries(
                old(self).results,
            ).drop_last() && final(self).result_max_size == (if old(self).result_max_size >= 1 {
                old(self).result_max_size - 1
            } else {
                0
            }),
            r is Ready ==> ranked_entries(old(self).results).len() >= 1 && (forall|i: int|
                0 <= i < ranked_entries(final(self).results).len()
                    ==> (#[trigger] ranked_entries(final(self).results)[i]).0 <= ranked_entries(
                    old(self).results,
                ).last().0),
            r matches AutoGenOutput::Ready(db) ==> ({
                let top = ranked_entries(old(self).results).last();
                let cell = old(self).slots@[top.1 as int];
                &&& cell matches Option::Some(c) && db.analysis matches Option::Some(a)
                    && a.optimal_movement_count == c.analysis.optimal_movement_count
                    && db.max_movement_count == Option::Some(
                    c.analysis.optimal_movement_count as isize,
                ) && db.board.gates@.len() == c.board.gates@.len() && c.fitness == top.0
            }),
    {
        let popped = rs_pop(&mut self.results);
        match popped {
            Option::None => {
                if self.result_max_size == 0 {
                    AutoGenOutput::NoMoreBufferedBoards
                } else {
                    AutoGenOutput::NotReady
                }
            },
            Option::Some(pair) => {
                proof {
                    let entries = ranked_entries(old(self).results);
                    assert(entries[entries.len() - 1] == pair);
                    assert(pair.1 < self.slots@.len());
                    assert(slot_ok(self.slots@[pair.1 as int], pair.0));
                }
                let slot = pair.1 as usize;
                proof {
                    assert(slot as int == pair.1 as int);
                    assert(slot_ok(self.slots@[slot as int], pair.0));
                }
                let candidate = match &self.slots[slot] {
                    Option::Some(c) => clone_candidate(c),
                    Option::None => {
                        proof {
                            assert(false);
                        }
                        return AutoGenOutput::NotReady;
                    },
                };
                proof {
                    assert(cand_ok(candidate));
                }
                self.slots.set(slot, Option::None);
                proof {
                    let entries = ranked_entries(old(self).results);
                    let kept = ranked_entries(self.results);
                    assert forall|i: int|
                        0 <= i < kept.len() implies slot_ok(
                        self.slots@[(#[trigger] kept[i]).1 as int],
                        kept[i].0,
                    ) by {
                        assert(kept[i] == entries[i]);
                        assert(entries[i].1 != pair.1);
                    }
                }

                if self.result_max_size >= 1 {
                    self.result_max_size = self.result_max_size - 1;
                } else {
                    self.result_max_size = 0;
                }
                if self.result_max_size == 0 {
                    let _ = self.stop_search();
                }

                let mut highlight: Vec<Pos> = Vec::new();
                let tier0 = &candidate.analysis.routes[0];
                let route0 = &tier0[0];
                let mut k: usize = 0;
                while k < route0.solution.len()
                    invariant
                        k <= route0.solution@.len(),
                    decreases route0.solution@.len() - k,
                {
                    highlight.push(route0.solution[k].1);
                    k = k + 1;
                }
                candidate.board.print(highlight);

                let mut board = candidate.board;
                let ghost n_gates0 = board.gates@.len();
                let ghost target = entry_direction;
                let mut guard: usize = 0;
                while guard < 3 && !matches_dir(
                    board.get_gate_direction(0),
                    entry_direction,
                )
                    invariant
                        board.wf(),
                        1 <= board.gates@.len() <= 10000,
                        board.gates@.len() == n_gates0,
                        guard <= 3,
                    decreases 3 - guard,
                {
                    board = board.rotate_left();
                    guard = guard + 1;
                }

                let board = asthetic_cleanup(board, &candidate.analysis, 0);
                proof {
                    let entries = ranked_entries(old(self).results);
                    assert forall|i: int|
                        0 <= i < ranked_entries(self.results).len() implies (
                    #[trigger] ranked_entries(self.results)[i]).0 <= entries.last().0 by {
                        assert(ranked_entries(self.results)[i] == entries[i]);
                        assert(pair_le(entries[i], entries[entries.len() - 1]));
                    }
                }
                let ghost opt_count = candidate.analysis.optimal_movement_count;
                let db = DartBoard::new(board, Option::Some(candidate.analysis));
                proof {
                    let top = ranked_entries(old(self).results).last();
                    let cell = old(self).slots@[top.1 as int];
                    assert(cell matches Option::Some(c) && c.fitness == top.0
                        && c.analysis.optimal_movement_count == opt_count);
                    assert(db.analysis matches Option::Some(a) && a.optimal_movement_count
                        == opt_count);
                    assert(db.max_movement_count == Option::Some(opt_count as isize));
                }
                AutoGenOutput::Ready(db)
            },
        }
    }

    /// One generate, solve and score pass of a worker: a solvable room
    /// whose fitness beats the worker's threshold is filed into the ranked
    /// set, and the set's new cutoff comes back as the next threshold.
    ///
    /// Whatever the random draws brought, either the attempt was discarded
    /// and nothing changed, or a candidate above the threshold went in as
    /// `submit` promises.
    pub fn worker_cycle(&mut self, fitness_filter: u64) -> (r: u64)
        requires
            old(self).wf(),
            old(self).slots@.len() < 1000000000,
        ensures
            final(self).wf(),
            final(self).result_max_size == old(self).result_max_size,
            final(self).board_desc == old(self).board_desc,
            final(self).worker_count == old(self).worker_count,
            ({
                ||| (r == fitness_filter && ranked_entries(final(self).results)
                    == ranked_entries(old(self).results) && final(self).slots@ == old(
                    self,
                ).slots@)
                ||| (exists|f: u64|
                    #[trigger] filed_over(*old(self), *final(self), f, fitness_filter, r))
            }),
    {
        let desc = match &self.board_desc {
            Option::Some(d) => *d,
            Option::None => {
                return fitness_filter;
            },
        };
        let board = match Board::new_random(&desc) {
            Result::Ok(b) => b,
            Result::Err(_) => {
                return fitness_filter;
            },
        };
        let analysis = match analyze(&board, 0, 1) {
            Result::Ok(a) => a,
            Result::Err(_) => {
                return fitness_filter;
            },
        };
        if !analysis_scoreable(&analysis) {
            return fitness_filter;
        }
        let fitness = analysis.compute_fitness(&board.map, &desc);
        if fitness > fitness_filter {
            let r = self.submit(Candidate { fitness, board, analysis });
            proof {
                assert(filed_over(*old(self), *self, fitness, fitness_filter, r));
            }
            r
        } else {
            fitness_filter
        }
    }
}

/// Equality test on headings.
fn matches_dir(a: Direction, b: Direction) -> (r: bool)
    ensures
        r == (a == b),
{
    match (a, b) {
        (Direction::North, Direction::North) => true,
        (Direction::South, Direction::South) => true,
        (Direction::East, Direction::East) => true,
        (Direction::West, Direction::West) => true,
        _ => false,
    }
}

/// Checks at run time that an analysis fits the scoring bounds.
fn analysis_scoreable(a: &Analysis) -> (r: bool)
    ensures
        r ==> scoreable(*a, a.routes@) && a.optimal_movement_count <= 100000 && forall|
            t: int,
            j: int,
        |
            0 <= t < a.routes@.len() && 0 <= j < a.routes@[t]@.len()
                ==> route_coords_bounded((#[trigger] a.routes@[t]@[j]).solution@),
{
    if a.routes.len() != 3 {
        return false;
    }
    if a.routes[0].len() == 0 {
        return false;
    }
    if a.optimal_movement_count > 100000 {
        return false;
    }
    let mut t: usize = 0;
    while t < 3
        invariant
            t <= 3,
            a.routes@.len() == 3,
            1 <= a.routes@[0]@.len(),
            a.routes@[1]@.len() <= 10000 || t <= 1,
            a.routes@[0]@.len() <= 10000 || t == 0,
            a.routes@[2]@.len() <= 10000 || t <= 2,
            forall|tt: int, j: int|
                0 <= tt < t && 0 <= j < a.routes@[tt]@.len() ==> 1 <= (
                #[trigger] a.routes@[tt]@[j]).solution@.len() <= 10000
                    && route_coords_bounded(a.routes@[tt]@[j].solution@),
        decreases 3 - t,
    {
        let tier = &a.routes[t];
        if tier.len() > 10000 {
            return false;
        }
        let mut j: usize = 0;
        while j < tier.len()
            invariant
                j <= tier@.len(),
                tier@ == a.routes@[t as int]@,
                t < 3,
                a.routes@.len() == 3,
                forall|b: int|
                    0 <= b < j ==> 1 <= (#[trigger] tier@[b]).solution@.len() <= 10000
                        && route_coords_bounded(tier@[b].solution@),
            decreases tier@.len() - j,
        {
            let route = &tier[j];
            if route.solution.len() == 0 || route.solution.len() > 10000 {
                return false;
            }
            let mut k: usize = 0;
            while k < route.solution.len()
                invariant
                    k <= route.solution@.len(),
                    forall|c: int|
                        0 <= c < k ==> -100000 <= (#[trigger] route.solution@[c]).1.x
                            <= 100000 && -100000 <= route.solution@[c].1.y <= 100000,
                decreases route.solution@.len() - k,
            {
                let p = route.solution[k].1;
                if p.x < -100000 || p.x > 100000 || p.y < -100000 || p.y > 100000 {
                    return false;
                }
                k = k + 1;
            }
            j = j + 1;
        }
        t = t + 1;
    }
    true
}

/// Records the search parameters as the host-facing start call.
pub fn dart_start_search(
    pool: &mut SearchPool,
    board_desc: BoardDescription,
    max_buffered_boards: isize,
) -> (r: usize)
    requires
        old(pool).wf(),
    ensures
        final(pool).wf(),
        final(pool).board_desc == Option::Some(board_desc),
{
    pool.start_search(board_desc, max_buffered_boards)
}

/// Pops the next room for the host.
pub fn dart_get_new_board(pool: &mut SearchPool, entry_direction: Direction) -> (r: AutoGenOutput)
    requires
        old(pool).wf(),
    ensures
        final(pool).wf(),
{
    pool.get_new_room(entry_direction)
}

/// Pauses every worker for the host.
pub fn dart_worker_halt(pool: &SearchPool, millis: usize) -> (r: Vec<CtrlMsg>)
    ensures
        r@.len() == pool.worker_count,
{
    pool.halt_search(millis)
}

/// Retires every worker for the host.
pub fn dart_stop_search(pool: &mut SearchPool) -> (r: usize)
    requires
        old(pool).wf(),
    ensures
        final(pool).wf(),
        final(pool).worker_count == 0,
{
    pool.stop_search()
}

} // verus!
