//! The Solver itself.

use vstd::prelude::*;

use crate::model::digit::Digit;
use crate::model::grid::first_conflict;
use crate::model::grid::Grid;
use crate::model::index::CellIndex;
use crate::solver::analyzer::lemma_pending_nonneg;
use crate::solver::analyzer::Analyzer;
use crate::solver::journal::extends;
use crate::solver::journal::JournalReader;
use crate::solver::placement::Placement;
use crate::solver::placer::Placer;
use crate::solver::possible_values::lemma_shrinks_trans;
use crate::solver::possible_values::lemma_total_candidates_full;
use crate::solver::possible_values::lemma_total_candidates_nonneg;
use crate::solver::possible_values::PossibleValues;
use crate::solver::refinement::Refinement;

verus! {

broadcast use crate::model::digit_set::lemma_digit_set_finite;

/// The didactic solver assistant.
///
/// Composes the Grid, the Analyzer and the Placer: placements flow from the
/// Placer's journal into the Analyzer, refinements flow from the Analyzer's
/// journal into the Placer, and the Solver mirrors the Placer's placements
/// into the Grid.
#[derive(Clone, Debug)]
pub struct Solver {
    grid: Grid,
    analyzer: Analyzer,
    placer: Placer,
}

impl Solver {
    /// The solver's grid.
    pub closed spec fn spec_grid(self) -> Grid {
        self.grid
    }

    /// The solver's analyzer.
    pub closed spec fn spec_analyzer(self) -> Analyzer {
        self.analyzer
    }

    /// The solver's placer.
    pub closed spec fn spec_placer(self) -> Placer {
        self.placer
    }

    /// The solver's components are consistent with one another:
    ///
    /// - the grid's solved count matches its cells;
    /// - both copies of the possible values satisfy their counter invariant;
    /// - every cursor lies within the journal it reads;
    /// - at least one candidate was removed for every refinement appended,
    ///   bounding the refinement journal;
    /// - a cell placed in the grid holds its digit as only remaining
    ///   candidate in the placer's possible values.
    pub open spec fn wf(self) -> bool {
        &&& self.spec_grid().wf()
        &&& self.spec_analyzer().wf()
        &&& self.spec_placer().wf()
        &&& 0 <= self.spec_placer().cursor() <= self.spec_analyzer().log().len()
        &&& forall|i: int|
            0 <= i < 5 ==> 0 <= #[trigger] self.spec_analyzer().pcur(i) <= self.spec_placer().log().len()
        &&& self.spec_analyzer().log().len() + self.spec_analyzer().pv().total_candidates(81)
            <= 729
        &&& forall|c: int|
            0 <= c < 81 && self.spec_grid()@[c] is Some
                ==> #[trigger] self.spec_placer().pv().candidates(c).subset_of(
                set![self.spec_grid()@[c].unwrap()@],
            )
    }

    /// Creates a new instance of Solver from a given Grid.
    ///
    /// Every digit already present in the grid is fed to the Placer, each
    /// becoming an initial Placement.
    pub fn new(grid: Grid) -> (r: Solver)
        requires
            grid.wf(),
        ensures
            r.wf(),
            r.spec_grid() == grid,
            forall|c: int|
                0 <= c < 81 && grid@[c] is None ==> #[trigger] r.spec_placer().pv().candidates(c)
                    == vstd::set_lib::set_int_range(1, 10),
            forall|c: int|
                0 <= c < 81 && grid@[c] is Some ==> #[trigger] r.spec_placer().pv().candidates(c)
                    == set![grid@[c].unwrap()@],
            r.spec_analyzer().log() == Seq::<Refinement>::empty(),
            r.spec_placer().log().len() == crate::model::grid::solved_count(grid@, 81),
            forall|k: int|
                0 <= k < r.spec_placer().log().len() ==> {
                    let seeded = #[trigger] r.spec_placer().log()[k];
                    &&& 0 <= seeded.spec_cell()@ < 81
                    &&& grid@[seeded.spec_cell()@] == Some(seeded.spec_digit())
                },
            forall|k1: int, k2: int|
                0 <= k1 < k2 < r.spec_placer().log().len() ==> #[trigger] r.spec_placer().log()[k1].spec_cell()@
                    < #[trigger] r.spec_placer().log()[k2].spec_cell()@,
            forall|c: int|
                0 <= c < 81 && (#[trigger] grid@[c]) is Some ==> exists|k: int|
                    0 <= k < r.spec_placer().log().len() && r.spec_placer().log()[k].spec_cell()@
                        == c,
    {
        let analyzer = Analyzer::new();
        let mut placer = Placer::new();

        let mut cell_index: usize = 0;
        while cell_index < 81
            invariant
                cell_index <= 81,
                grid.wf(),
                placer.wf(),
                placer.cursor() == 0,
                placer.log().len() <= cell_index,
                forall|c: int|
                    cell_index <= c < 81 ==> #[trigger] placer.pv().candidates(c)
                        == vstd::set_lib::set_int_range(1, 10),
                forall|c: int|
                    0 <= c < cell_index && grid@[c] is None ==> #[trigger] placer.pv().candidates(
                        c,
                    ) == vstd::set_lib::set_int_range(1, 10),
                forall|c: int|
                    0 <= c < cell_index && grid@[c] is Some ==> #[trigger] placer.pv().candidates(
                        c,
                    ) == set![grid@[c].unwrap()@],
                placer.log().len() == crate::model::grid::solved_count(grid@, cell_index as int),
                forall|k: int|
                    0 <= k < placer.log().len() ==> {
                        let seeded = #[trigger] placer.log()[k];
                        &&& 0 <= seeded.spec_cell()@ < cell_index
                        &&& grid@[seeded.spec_cell()@] == Some(seeded.spec_digit())
                    },
                forall|k1: int, k2: int|
                    0 <= k1 < k2 < placer.log().len() ==> #[trigger] placer.log()[k1].spec_cell()@
                        < #[trigger] placer.log()[k2].spec_cell()@,
                forall|c: int|
                    0 <= c < cell_index && (#[trigger] grid@[c]) is Some ==> exists|k: int|
                        0 <= k < placer.log().len() && placer.log()[k].spec_cell()@ == c,
            decreases 81 - cell_index,
        {
            let cell = CellIndex::new(cell_index).unwrap();
            match grid.get_digit(cell) {
                Some(digit) => {
                    proof {
                        use_type_invariant(&digit);
                        vstd::set_lib::lemma_int_range(1, 10);
                    }
                    let ghost seeded = placer.log();
                    placer.set_digit(cell, digit);
                    proof {
                        assert forall|c: int|
                            0 <= c < cell_index + 1 && (#[trigger] grid@[c]) is Some implies exists|
                                k: int,
                            |
                                0 <= k < placer.log().len() && placer.log()[k].spec_cell()@
                                    == c by {
                            if c == cell_index {
                                assert(placer.log()[placer.log().len() - 1].spec_cell()@ == c);
                            } else {
                                let k = choose|k: int|
                                    0 <= k < seeded.len() && seeded[k].spec_cell()@ == c;
                                assert(placer.log()[k].spec_cell()@ == c);
                            }
                        }
                    }
                },
                None => {},
            }
            cell_index = cell_index + 1;
        }

        let result = Solver { grid, analyzer, placer };
        proof {
            lemma_total_candidates_full(result.spec_analyzer().pv(), 81);
            assert forall|c: int|
                0 <= c < 81 && result.spec_grid()@[c] is Some implies #[trigger] result
                .spec_placer().pv().candidates(c).subset_of(
                set![result.spec_grid()@[c].unwrap()@],
            ) by {
                assert(result.spec_placer().pv().candidates(c) == set![
                    result.spec_grid()@[c].unwrap()@,
                ]);
            }
        }
        result
    }

    /// Returns the current grid.
    pub fn grid(&self) -> (r: Grid)
        ensures
            r == self.spec_grid(),
    {
        self.grid
    }

    /// Returns the current possible values, as the analyzer sees them.
    pub fn possible_values(&self) -> (r: PossibleValues)
        ensures
            r == self.spec_analyzer().pv(),
    {
        self.analyzer.possible_values()
    }

    /// Returns the placer's copy of the possible values: the copy that
    /// accepting a manual placement consults.
    pub fn placer_possible_values(&self) -> (r: PossibleValues)
        ensures
            r == self.spec_placer().pv(),
    {
        self.placer.possible_values()
    }

    /// Returns the successive set of refinements performed by the solver.
    pub fn refinements(&self) -> (r: JournalReader<'_, Refinement>)
        ensures
            r@ == self.spec_analyzer().log(),
    {
        self.analyzer.refinements()
    }

    /// Returns the successive set of placements performed by the solver, or
    /// user.
    pub fn placements(&self) -> (r: JournalReader<'_, Placement>)
        ensures
            r@ == self.spec_placer().log(),
    {
        self.placer.placements()
    }

    /// Sets the specified digit in the specified cell, if allowed.
    ///
    /// Returns an error naming the conflicting cell if the digit duplicates a
    /// peer in a shared row, column or square, as per the rules of Sudoku; no
    /// state is mutated in that case.
    pub fn set_digit(&mut self, cell: CellIndex, digit: Digit) -> (r: Result<(), ConflictError>)
        requires
            old(self).wf(),
            first_conflict(old(self).spec_grid()@, cell@, digit, 0) is None ==> old(
                self,
            ).spec_placer().pv().candidates(cell@).contains(digit@),
        ensures
            final(self).wf(),
            match first_conflict(old(self).spec_grid()@, cell@, digit, 0) {
                Some(conflicting) => {
                    &&& (r matches Err(error) && error.spec_digit() == digit
                        && error.spec_candidate() == cell && error.spec_conflicting()@
                        == conflicting)
                    &&& *final(self) == *old(self)
                },
                None => {
                    &&& r is Ok
                    &&& final(self).spec_grid()@ == old(self).spec_grid()@.update(
                        cell@,
                        Some(digit),
                    )
                    &&& final(self).spec_placer().pv().candidates(cell@) == set![digit@]
                    &&& forall|c: int|
                        0 <= c < 81 && c != cell@
                            ==> #[trigger] final(self).spec_placer().pv().candidates(c) == old(
                            self,
                        ).spec_placer().pv().candidates(c)
                    &&& final(self).spec_analyzer() == old(self).spec_analyzer()
                    &&& final(self).spec_placer().log() == old(self).spec_placer().log().push(
                        final(self).spec_placer().log().last(),
                    )
                    &&& final(self).spec_placer().log().last().spec_cell() == cell
                    &&& final(self).spec_placer().log().last().spec_digit() == digit
                },
            },
    {
        proof {
            use_type_invariant(&cell);
            use_type_invariant(&digit);
        }
        //  Check for conflicts before any modification.
        match self.grid.get_conflicting(cell, digit) {
            Some(conflicting) => {
                return Err(ConflictError { digit, candidate: cell, conflicting });
            },
            None => {},
        }

        //  Mark as resolved.
        self.grid.set_digit(cell, Some(digit));
        self.placer.set_digit(cell, digit);

        Ok(())
    }

    /// Solves the grid completely, if possible.
    ///
    /// Alternates placements and refinements until the grid is full; returns
    /// an error if no further progress can be made before that.
    pub fn solve(&mut self) -> (r: Result<(), ProgressStalled>)
        requires
            old(self).wf(),
        ensures
            final(self).wf(),
            r is Ok <==> final(self).spec_grid().number_solved_spec() == 81,
            r is Err ==> final(self).spec_placer().cursor()
                == final(self).spec_analyzer().log().len() && final(self).spec_analyzer().done_spec(
                final(self).spec_placer().log().len() as int,
            ),
            final(self).spec_analyzer().pv().shrinks_from(old(self).spec_analyzer().pv()),
            final(self).spec_placer().pv().shrinks_from(old(self).spec_placer().pv()),
            forall|c: int|
                0 <= c < 81 && old(self).spec_grid()@[c] is Some
                    ==> #[trigger] final(self).spec_grid()@[c] == old(self).spec_grid()@[c],
            extends(final(self).spec_analyzer().log(), old(self).spec_analyzer().log()),
            extends(final(self).spec_placer().log(), old(self).spec_placer().log()),
            final(self).spec_placer().cursor() >= old(self).spec_placer().cursor(),
            forall|c: int|
                0 <= c < 81 ==> #[trigger] final(self).spec_placer().pv().candidates(c) == old(
                    self,
                ).spec_placer().pv().candidates(c).difference(
                    crate::solver::placer::refined_digits_at(
                        final(self).spec_analyzer().log(),
                        c,
                        old(self).spec_placer().cursor(),
                        final(self).spec_placer().cursor(),
                    ),
                ),
            forall|k: int|
                old(self).spec_placer().log().len() <= k < final(self).spec_placer().log().len()
                    ==> {
                    let placed = #[trigger] final(self).spec_placer().log()[k];
                    &&& 0 <= placed.spec_cell()@ < 81
                    &&& final(self).spec_grid()@[placed.spec_cell()@] == Some(placed.spec_digit())
                },
            forall|c: int|
                0 <= c < 81 && old(self).spec_grid()@[c] is None
                    && (#[trigger] final(self).spec_grid()@[c]) is Some ==> exists|k: int|
                    old(self).spec_placer().log().len() <= k < final(self).spec_placer().log().len()
                        && final(self).spec_placer().log()[k].spec_cell()@ == c,
            final(self).spec_grid().number_solved_spec() == old(self).spec_grid(
            ).number_solved_spec() + final(self).spec_placer().log().len() - old(
                self,
            ).spec_placer().log().len(),
    {
        proof {
            assert(extends(self.spec_analyzer().log(), self.spec_analyzer().log())
                && extends(self.spec_placer().log(), self.spec_placer().log())) by {
                assert(self.spec_analyzer().log().take(
                    self.spec_analyzer().log().len() as int,
                ) =~= self.spec_analyzer().log());
                assert(self.spec_placer().log().take(self.spec_placer().log().len() as int)
                    =~= self.spec_placer().log());
            }
            assert forall|c: int| 0 <= c < 81 implies #[trigger] self.spec_placer().pv().candidates(
                c,
            ) == self.spec_placer().pv().candidates(c).difference(
                crate::solver::placer::refined_digits_at(
                    self.spec_analyzer().log(),
                    c,
                    self.spec_placer().cursor(),
                    self.spec_placer().cursor(),
                ),
            ) by {
                assert(self.spec_placer().pv().candidates(c) =~= self.spec_placer().pv().candidates(
                    c,
                ).difference(Set::empty()));
            }
        }
        loop
            invariant
                self.wf(),
                old(self).wf(),
                self.spec_analyzer().pv().shrinks_from(old(self).spec_analyzer().pv()),
                self.spec_placer().pv().shrinks_from(old(self).spec_placer().pv()),
                forall|c: int|
                    0 <= c < 81 && old(self).spec_grid()@[c] is Some ==> #[trigger] self
                        .spec_grid()@[c] == old(self).spec_grid()@[c],
                extends(self.spec_analyzer().log(), old(self).spec_analyzer().log()),
                extends(self.spec_placer().log(), old(self).spec_placer().log()),
                self.spec_placer().cursor() >= old(self).spec_placer().cursor(),
                forall|c: int|
                    0 <= c < 81 ==> #[trigger] self.spec_placer().pv().candidates(c) == old(
                        self,
                    ).spec_placer().pv().candidates(c).difference(
                        crate::solver::placer::refined_digits_at(
                            self.spec_analyzer().log(),
                            c,
                            old(self).spec_placer().cursor(),
                            self.spec_placer().cursor(),
                        ),
                    ),
                forall|k: int|
                    old(self).spec_placer().log().len() <= k < self.spec_placer().log().len()
                        ==> {
                        let placed = #[trigger] self.spec_placer().log()[k];
                        &&& 0 <= placed.spec_cell()@ < 81
                        &&& self.spec_grid()@[placed.spec_cell()@] == Some(placed.spec_digit())
                    },
                forall|c: int|
                    0 <= c < 81 && old(self).spec_grid()@[c] is None && (#[trigger] self
                        .spec_grid()@[c]) is Some ==> exists|k: int|
                        old(self).spec_placer().log().len() <= k < self.spec_placer().log().len()
                            && self.spec_placer().log()[k].spec_cell()@ == c,
                self.spec_grid().number_solved_spec() == old(self).spec_grid(
                ).number_solved_spec() + self.spec_placer().log().len() - old(
                    self,
                ).spec_placer().log().len(),
            decreases
                    81 - self.spec_grid().number_solved_spec(),
                    729 - self.spec_analyzer().log().len(),
        {
            proof {
                crate::model::grid::lemma_solved_count_bounds(self.spec_grid()@, 81);
                lemma_total_candidates_nonneg(self.spec_analyzer().pv(), 81);
            }
            if !(self.grid.number_solved() < 81) {
                return Ok(());
            }

            let ghost before = *self;
            let placed = self.place();
            proof {
                lemma_shrinks_trans(
                    self.spec_placer().pv(),
                    before.spec_placer().pv(),
                    old(self).spec_placer().pv(),
                );
                //  The freshly consumed segment joins the accumulated one.
                assert forall|c: int| 0 <= c < 81 implies #[trigger] self.spec_placer(
                ).pv().candidates(c) == old(self).spec_placer().pv().candidates(c).difference(
                    crate::solver::placer::refined_digits_at(
                        self.spec_analyzer().log(),
                        c,
                        old(self).spec_placer().cursor(),
                        self.spec_placer().cursor(),
                    ),
                ) by {
                    crate::solver::placer::lemma_refined_digits_concat(
                        self.spec_analyzer().log(),
                        c,
                        old(self).spec_placer().cursor(),
                        before.spec_placer().cursor(),
                        self.spec_placer().cursor(),
                    );
                    assert(old(self).spec_placer().pv().candidates(c).difference(
                        crate::solver::placer::refined_digits_at(
                            self.spec_analyzer().log(),
                            c,
                            old(self).spec_placer().cursor(),
                            before.spec_placer().cursor(),
                        ),
                    ).difference(
                        crate::solver::placer::refined_digits_at(
                            self.spec_analyzer().log(),
                            c,
                            before.spec_placer().cursor(),
                            self.spec_placer().cursor(),
                        ),
                    ) =~= old(self).spec_placer().pv().candidates(c).difference(
                        crate::solver::placer::refined_digits_at(
                            self.spec_analyzer().log(),
                            c,
                            old(self).spec_placer().cursor(),
                            self.spec_placer().cursor(),
                        ),
                    ));
                }
            }
            if placed.is_ok() {
                proof {
                    crate::model::grid::lemma_solved_count_bounds(self.spec_grid()@, 81);
                    lemma_total_candidates_nonneg(self.spec_analyzer().pv(), 81);
                    assert(extends(self.spec_placer().log(), old(self).spec_placer().log())) by {
                        assert forall|k: int|
                            0 <= k < old(self).spec_placer().log().len() implies self.spec_placer(
                        ).log().take(old(self).spec_placer().log().len() as int)[k] == old(
                            self,
                        ).spec_placer().log()[k] by {
                            assert(before.spec_placer().log().take(
                                old(self).spec_placer().log().len() as int,
                            )[k] == before.spec_placer().log()[k]);
                        }
                        assert(self.spec_placer().log().take(
                            old(self).spec_placer().log().len() as int,
                        ) =~= old(self).spec_placer().log());
                    }
                    let last = self.spec_placer().log().last();
                    assert(self.spec_grid()@ == before.spec_grid()@.update(
                        last.spec_cell()@,
                        Some(last.spec_digit()),
                    ));
                    //  The new placement filled a previously empty cell: a
                    //  write over a known digit would leave the solved count
                    //  unchanged.
                    crate::model::grid::lemma_solved_count_update(
                        before.spec_grid()@,
                        self.spec_grid()@,
                        last.spec_cell()@,
                        81,
                    );
                    assert(before.spec_grid()@[last.spec_cell()@] is None);
                    assert forall|k: int|
                        old(self).spec_placer().log().len() <= k < self.spec_placer().log().len()
                            implies {
                        let placed_event = #[trigger] self.spec_placer().log()[k];
                        &&& 0 <= placed_event.spec_cell()@ < 81
                        &&& self.spec_grid()@[placed_event.spec_cell()@] == Some(
                            placed_event.spec_digit(),
                        )
                    } by {
                        if k < before.spec_placer().log().len() {
                            assert(self.spec_placer().log()[k] == before.spec_placer().log()[k]);
                            //  An earlier placement already stood in the grid, so
                            //  the new write, to a previously empty cell, is
                            //  elsewhere.
                            assert(before.spec_grid()@[before.spec_placer().log()[k].spec_cell()@]
                                is Some);
                            assert(before.spec_placer().log()[k].spec_cell()@
                                != last.spec_cell()@);
                        } else {
                            assert(self.spec_placer().log()[k] == last);
                        }
                    }
                    assert forall|c: int|
                        0 <= c < 81 && old(self).spec_grid()@[c] is None && (#[trigger] self
                            .spec_grid()@[c]) is Some implies exists|k: int|
                            old(self).spec_placer().log().len() <= k < self.spec_placer(
                            ).log().len() && self.spec_placer().log()[k].spec_cell()@ == c by {
                        if before.spec_grid()@[c] is Some {
                            let k = choose|k: int|
                                old(self).spec_placer().log().len() <= k < before.spec_placer(
                                ).log().len() && before.spec_placer().log()[k].spec_cell()@ == c;
                            assert(self.spec_placer().log()[k].spec_cell()@ == c);
                        } else {
                            assert(c == last.spec_cell()@);
                            assert(self.spec_placer().log()[self.spec_placer().log().len()
                                - 1].spec_cell()@ == c);
                        }
                    }
                }
                continue ;
            }

            let ghost before_refine = *self;
            let refined = self.refine();
            proof {
                lemma_shrinks_trans(
                    self.spec_analyzer().pv(),
                    before_refine.spec_analyzer().pv(),
                    old(self).spec_analyzer().pv(),
                );
                crate::solver::journal::lemma_extends_trans(
                    self.spec_analyzer().log(),
                    before_refine.spec_analyzer().log(),
                    old(self).spec_analyzer().log(),
                );
                //  The journal grew: the consumed segment reads the same.
                assert forall|c: int| 0 <= c < 81 implies #[trigger] self.spec_placer(
                ).pv().candidates(c) == old(self).spec_placer().pv().candidates(c).difference(
                    crate::solver::placer::refined_digits_at(
                        self.spec_analyzer().log(),
                        c,
                        old(self).spec_placer().cursor(),
                        self.spec_placer().cursor(),
                    ),
                ) by {
                    assert(0 <= old(self).spec_placer().cursor());
                    assert(self.spec_placer().cursor() == before_refine.spec_placer().cursor());
                    assert(before_refine.spec_placer().cursor() <= before_refine.spec_analyzer(
                    ).log().len());
                    crate::solver::placer::lemma_refined_digits_stable(
                        self.spec_analyzer().log(),
                        before_refine.spec_analyzer().log(),
                        c,
                        old(self).spec_placer().cursor(),
                        self.spec_placer().cursor(),
                    );
                }
            }
            if refined.is_ok() {
                proof {
                    crate::model::grid::lemma_solved_count_bounds(self.spec_grid()@, 81);
                    lemma_total_candidates_nonneg(self.spec_analyzer().pv(), 81);
                }
                continue ;
            }

            proof {
                crate::model::grid::lemma_solved_count_bounds(self.spec_grid()@, 81);
            }
            return Err(ProgressStalled {  });
        }
    }

    /// Places the next value, if possible.
    ///
    /// Drains refinements through the Placer until a placement is made, which
    /// is mirrored into the Grid, or the Placer has caught up.
    pub fn place(&mut self) -> (r: Result<(), ProgressStalled>)
        requires
            old(self).wf(),
        ensures
            final(self).wf(),
            final(self).spec_analyzer() == old(self).spec_analyzer(),
            final(self).spec_placer().pv().shrinks_from(old(self).spec_placer().pv()),
            r is Ok ==> final(self).spec_grid().number_solved_spec() == old(
                self,
            ).spec_grid().number_solved_spec() + 1,
            r is Err ==> final(self).spec_grid() == old(self).spec_grid()
                && final(self).spec_placer().cursor() == final(self).spec_analyzer().log().len()
                && final(self).spec_placer().log() == old(self).spec_placer().log(),
            r is Ok ==> final(self).spec_placer().log() == old(self).spec_placer().log().push(
                final(self).spec_placer().log().last(),
            ) && final(self).spec_grid()@ == old(self).spec_grid()@.update(
                final(self).spec_placer().log().last().spec_cell()@,
                Some(final(self).spec_placer().log().last().spec_digit()),
            ) && 0 <= final(self).spec_placer().log().last().spec_cell()@ < 81,
            final(self).spec_placer().cursor() >= old(self).spec_placer().cursor(),
            forall|c: int|
                0 <= c < 81 ==> #[trigger] final(self).spec_placer().pv().candidates(c) == old(
                    self,
                ).spec_placer().pv().candidates(c).difference(
                    crate::solver::placer::refined_digits_at(
                        final(self).spec_analyzer().log(),
                        c,
                        old(self).spec_placer().cursor(),
                        final(self).spec_placer().cursor(),
                    ),
                ),
            forall|c: int|
                0 <= c < 81 && old(self).spec_grid()@[c] is Some
                    ==> #[trigger] final(self).spec_grid()@[c] == old(self).spec_grid()@[c],
    {
        proof {
            assert forall|c: int| 0 <= c < 81 implies #[trigger] self.spec_placer().pv().candidates(
                c,
            ) == self.spec_placer().pv().candidates(c).difference(
                crate::solver::placer::refined_digits_at(
                    self.spec_analyzer().log(),
                    c,
                    self.spec_placer().cursor(),
                    self.spec_placer().cursor(),
                ),
            ) by {
                assert(self.spec_placer().pv().candidates(c) =~= self.spec_placer().pv().candidates(
                    c,
                ).difference(Set::empty()));
            }
        }
        loop
            invariant
                self.wf(),
                self.spec_analyzer() == old(self).spec_analyzer(),
                self.spec_grid() == old(self).spec_grid(),
                self.spec_placer().log() == old(self).spec_placer().log(),
                self.spec_placer().pv().shrinks_from(old(self).spec_placer().pv()),
                self.spec_placer().cursor() >= old(self).spec_placer().cursor(),
                forall|c: int|
                    0 <= c < 81 ==> #[trigger] self.spec_placer().pv().candidates(c) == old(
                        self,
                    ).spec_placer().pv().candidates(c).difference(
                        crate::solver::placer::refined_digits_at(
                            self.spec_analyzer().log(),
                            c,
                            old(self).spec_placer().cursor(),
                            self.spec_placer().cursor(),
                        ),
                    ),
            decreases self.spec_analyzer().log().len() - self.spec_placer().cursor(),
        {
            if self.placer.is_done(self.analyzer.refinement_journal()) {
                return Err(ProgressStalled {  });
            }

            let ghost before = *self;
            let placement = self.placer.handle_next_refinement(
                self.analyzer.refinement_journal(),
            );
            proof {
                lemma_shrinks_trans(
                    self.spec_placer().pv(),
                    before.spec_placer().pv(),
                    old(self).spec_placer().pv(),
                );
                let events = self.spec_analyzer().log();
                let from = old(self).spec_placer().cursor();
                let consumed = before.spec_placer().cursor();
                let event = events[consumed];
                assert forall|c: int| 0 <= c < 81 implies #[trigger] self.spec_placer(
                ).pv().candidates(c) == old(self).spec_placer().pv().candidates(c).difference(
                    crate::solver::placer::refined_digits_at(events, c, from, consumed + 1),
                ) by {
                    if c == event.spec_cell()@ {
                        assert(self.spec_placer().pv().candidates(c) =~= old(
                            self,
                        ).spec_placer().pv().candidates(c).difference(
                            crate::solver::placer::refined_digits_at(events, c, from, consumed)
                                .insert(event.spec_removed()@),
                        ));
                    } else {
                        assert(crate::solver::placer::refined_digits_at(events, c, from, consumed
                            + 1) == crate::solver::placer::refined_digits_at(
                            events,
                            c,
                            from,
                            consumed,
                        ));
                    }
                }
            }
            proof {
                assert forall|c: int|
                    0 <= c < 81 && self.spec_grid()@[c] is Some implies #[trigger] self
                    .spec_placer().pv().candidates(c).subset_of(
                    set![self.spec_grid()@[c].unwrap()@],
                ) by {
                    let held = self.spec_grid()@[c].unwrap()@;
                    assert(self.spec_placer().pv().candidates(c).subset_of(
                        before.spec_placer().pv().candidates(c),
                    ));
                    assert(before.spec_placer().pv().candidates(c).subset_of(set![held]));
                    assert forall|j: int|
                        self.spec_placer().pv().candidates(c).contains(j) implies set![
                        held,
                    ].contains(j) by {
                        assert(before.spec_placer().pv().candidates(c).contains(j));
                    }
                }
            }
            match placement {
                Some(placement) => {
                    let cell = placement.cell();
                    let digit = placement.digit();
                    proof {
                        use_type_invariant(&cell);
                        use_type_invariant(&digit);
                        let c = cell@;
                        if before.spec_grid()@[c] is Some {
                            let held = before.spec_grid()@[c].unwrap()@;
                            assert(before.spec_placer().pv().candidates(c).subset_of(set![held]));
                            assert(set![held].len() == 1) by {
                                assert(set![held] =~= Set::<int>::empty().insert(held));
                            }
                            vstd::set_lib::lemma_len_subset(
                                before.spec_placer().pv().candidates(c),
                                set![held],
                            );
                            assert(self.spec_placer().pv().candidates(c).len() == before
                                .spec_placer().pv().candidates(c).len() - 1);
                            assert(false);
                        }
                    }
                    self.grid.set_digit(cell, Some(digit));
                    proof {
                        assert(0 <= placement.spec_cell()@ < 81);
                    }
                    return Ok(());
                },
                None => {},
            }
        }
    }

    /// Refines the set of possible values, if possible.
    ///
    /// Runs analyses until at least one refinement is produced, or the
    /// Analyzer has caught up.
    pub fn refine(&mut self) -> (r: Result<(), ProgressStalled>)
        requires
            old(self).wf(),
        ensures
            final(self).wf(),
            final(self).spec_grid() == old(self).spec_grid(),
            final(self).spec_placer() == old(self).spec_placer(),
            final(self).spec_analyzer().pv().shrinks_from(old(self).spec_analyzer().pv()),
            extends(final(self).spec_analyzer().log(), old(self).spec_analyzer().log()),
            r is Ok ==> final(self).spec_analyzer().log().len() > old(
                self,
            ).spec_analyzer().log().len(),
            r is Err ==> final(self).spec_analyzer().log() == old(self).spec_analyzer().log()
                && final(self).spec_analyzer().done_spec(
                final(self).spec_placer().log().len() as int,
            ) && (forall|c: int|
                0 <= c < 81 ==> #[trigger] final(self).spec_analyzer().pv().candidates(c) == old(
                    self,
                ).spec_analyzer().pv().candidates(c)),
    {
        proof {
            assert(extends(self.spec_analyzer().log(), self.spec_analyzer().log())) by {
                assert(self.spec_analyzer().log().take(
                    self.spec_analyzer().log().len() as int,
                ) =~= self.spec_analyzer().log());
            }
        }
        loop
            invariant
                self.wf(),
                self.spec_grid() == old(self).spec_grid(),
                self.spec_placer() == old(self).spec_placer(),
                self.spec_analyzer().pv().shrinks_from(old(self).spec_analyzer().pv()),
                extends(self.spec_analyzer().log(), old(self).spec_analyzer().log()),
                self.spec_analyzer().log() == old(self).spec_analyzer().log(),
                forall|c: int|
                    0 <= c < 81 ==> #[trigger] self.spec_analyzer().pv().candidates(c) == old(
                        self,
                    ).spec_analyzer().pv().candidates(c),
            decreases self.spec_analyzer().pending(self.spec_placer().log().len() as int),
        {
            proof {
                lemma_pending_nonneg(
                    self.spec_analyzer(),
                    self.spec_placer().log().len() as int,
                    0,
                );
            }
            if self.analyzer.is_done(self.placer.placement_journal()) {
                return Err(ProgressStalled {  });
            }

            let ghost before = *self;
            let refined = self.analyzer.analyze(self.placer.placement_journal());
            proof {
                lemma_shrinks_trans(
                    self.spec_analyzer().pv(),
                    before.spec_analyzer().pv(),
                    old(self).spec_analyzer().pv(),
                );
                crate::solver::journal::lemma_extends_trans(
                    self.spec_analyzer().log(),
                    before.spec_analyzer().log(),
                    old(self).spec_analyzer().log(),
                );
            }
            if refined > 0 {
                return Ok(());
            }
            proof {
                let plen = self.spec_placer().log().len() as int;
                assert(!before.spec_analyzer().done_spec(plen));
                let witness = choose|i: int|
                    0 <= i < 5 && !(before.spec_analyzer().pcur(i) == plen && before.spec_analyzer(
                    ).rcur(i) == before.spec_analyzer().log().len());
                assert(before.spec_analyzer().pcur(witness) < plen || before.spec_analyzer().rcur(
                    witness,
                ) < before.spec_analyzer().log().len());
                assert(exists|j: int|
                    0 <= j < 5 && (before.spec_analyzer().pcur(j) < plen
                        || before.spec_analyzer().rcur(j) < before.spec_analyzer().log().len()));
                assert(self.spec_analyzer().pending(plen) < before.spec_analyzer().pending(plen));
                assert forall|i: int| 0 <= i < 5 implies #[trigger] self.spec_analyzer().pcur(i)
                    <= plen by {
                    assert(before.spec_analyzer().pcur(i) <= plen);
                }
                lemma_pending_nonneg(self.spec_analyzer(), plen, 0);
            }
        }
    }
}

/// A conflict error within a group.
#[derive(Clone, Debug)]
pub struct ConflictError {
    digit: Digit,
    candidate: CellIndex,
    conflicting: CellIndex,
}

impl ConflictError {
    /// The digit whose placement was requested.
    pub closed spec fn spec_digit(self) -> Digit {
        self.digit
    }

    /// The cell in which the placement was requested.
    pub closed spec fn spec_candidate(self) -> CellIndex {
        self.candidate
    }

    /// The cell already holding the digit.
    pub closed spec fn spec_conflicting(self) -> CellIndex {
        self.conflicting
    }

    /// Returns the digit whose placement was requested.
    pub fn digit(&self) -> (r: Digit)
        ensures
            r == self.spec_digit(),
    {
        self.digit
    }

    /// Returns the cell in which the placement was requested.
    pub fn candidate(&self) -> (r: CellIndex)
        ensures
            r == self.spec_candidate(),
    {
        self.candidate
    }

    /// Returns the cell already holding the digit.
    pub fn conflicting(&self) -> (r: CellIndex)
        ensures
            r == self.spec_conflicting(),
    {
        self.conflicting
    }
}

/// Progress is stalled.
#[derive(Clone, Debug)]
pub struct ProgressStalled {}

} // verus!
