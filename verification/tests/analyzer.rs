use sudidakt::model::digit::Digit;
use sudidakt::model::index::CellIndex;
use sudidakt::solver::analysis::Analysis;
use sudidakt::solver::analyzer::Analyzer;
use sudidakt::solver::journal::JournalWriter;
use sudidakt::solver::placement::Placement;
use sudidakt::solver::refinement::RefinementReason;

fn cell_at(index: usize) -> CellIndex {
    CellIndex::new(index).expect("Valid CellIndex")
}

fn digit(digit: usize) -> Digit {
    Digit::new(digit).expect("Valid Digit")
}

#[test]
fn cell_exclusion_resolves_the_placed_cell() {
    let mut analyzer = Analyzer::new();
    let mut placements: JournalWriter<Placement> = JournalWriter::new();
    placements.append_event(Placement::new(cell_at(0), digit(5)));

    assert!(!analyzer.is_done(&placements));

    //  Placing a 5 removes the 8 other candidates of the cell, one
    //  refinement each.
    let refined = analyzer.analyze_next_placement_with(Analysis::CellExclusion, &placements);
    assert_eq!(8, refined);

    let candidates = analyzer.possible_values().of_cell(cell_at(0));
    assert_eq!(1, candidates.size());
    assert!(candidates.has(digit(5)));

    let refinements = analyzer.refinements();
    assert_eq!(8, refinements.len());
    for event in refinements.get_events() {
        assert_eq!(0, event.cell().value());
        assert!(event.removed().value() != 5);
        assert!(matches!(event.reason(), RefinementReason::CellExclusion(_)));
    }
}

#[test]
fn group_exclusion_excludes_the_peers() {
    let mut analyzer = Analyzer::new();
    let mut placements: JournalWriter<Placement> = JournalWriter::new();
    placements.append_event(Placement::new(cell_at(0), digit(5)));

    //  The placed 5 leaves no room for a 5 in any of the 8 + 8 + 4 cells
    //  sharing a column, row or square with the placed cell.
    let refined = analyzer.analyze_next_placement_with(Analysis::GroupExclusion, &placements);
    assert_eq!(20, refined);

    let values = analyzer.possible_values();
    for c in [9, 72, 1, 8, 10, 11, 20] {
        assert!(!values.of_cell(cell_at(c)).has(digit(5)));
    }
    assert!(values.of_cell(cell_at(30)).has(digit(5)));
}

#[test]
fn analyze_reports_first_producing_analysis() {
    let mut analyzer = Analyzer::new();
    let mut placements: JournalWriter<Placement> = JournalWriter::new();
    placements.append_event(Placement::new(cell_at(0), digit(5)));

    //  The cheapest analysis, CellExclusion, produces first.
    let refined = analyzer.analyze(&placements);
    assert_eq!(8, refined);
    assert!(!analyzer.is_done(&placements));

    //  Draining every analysis and stream catches the analyzer up.
    loop {
        if analyzer.is_done(&placements) {
            break;
        }
        analyzer.analyze(&placements);
    }
    assert_eq!(0, analyzer.analyze(&placements));
}
