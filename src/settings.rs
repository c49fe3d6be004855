use vstd::prelude::*;

use crate::combination::{Combination, Solution};
use crate::config::RectConfiguration;

verus! {

/// Parameters of a run: worker count, area floor, subset sizes, clearance between
/// pieces, which stages to compute, and where each stage keeps its result.
pub struct Settings {
    pub thread_count: u8,
    pub min_solution_area: u32,
    pub min_rectangle_amount: u8,
    pub max_rectangle_amount: u8,
    pub distance_between_rectangles: u32,
    pub steps: [bool; 4],
    pub candidates_path: Option<&'static str>,
    pub fitting_candidates_path: Option<&'static str>,
    pub deduplicated_combinations_path: Option<&'static str>,
    pub solutions_filepath: Option<&'static str>,
    pub final_combinations_path: Option<&'static str>,
}

impl Default for Settings {
    fn default() -> (r: Settings)
        ensures
            r.thread_count == 2,
            r.min_solution_area == 1,
            r.min_rectangle_amount == 1,
            r.max_rectangle_amount == 100,
            r.distance_between_rectangles == 0,
            r.steps@ == seq![false, false, false, false],
            r.candidates_path is None,
            r.fitting_candidates_path is None,
            r.deduplicated_combinations_path is None,
            r.solutions_filepath is None,
            r.final_combinations_path is None,
    {
        let r = Settings {
            thread_count: 2,
            min_solution_area: 1,
            min_rectangle_amount: 1,
            max_rectangle_amount: 100,
            distance_between_rectangles: 0,
            steps: [false, false, false, false],
            candidates_path: None,
            fitting_candidates_path: None,
            deduplicated_combinations_path: None,
            solutions_filepath: None,
            final_combinations_path: None,
        };
        assert(r.steps@ =~= seq![false, false, false, false]);
        r
    }
}

/// The configuration, the settings, and what each stage of a run has produced.
pub struct ProgramStorage {
    pub rect_configuration: RectConfiguration,
    pub gathered_combinations: Vec<Combination>,
    pub deduplicated_combinations: Vec<Combination>,
    pub solutions: Vec<Combination>,
    pub combined_solutions: Vec<Solution>,
    pub final_combinations: Vec<Combination>,
    pub settings: Settings,
}

impl ProgramStorage {
    /// A storage whose stages hold nothing yet.
    pub fn new(rect_configuration: RectConfiguration, settings: Settings) -> (r: ProgramStorage)
        ensures
            r.rect_configuration == rect_configuration,
            r.settings == settings,
            r.gathered_combinations@.len() == 0,
            r.deduplicated_combinations@.len() == 0,
            r.solutions@.len() == 0,
            r.combined_solutions@.len() == 0,
            r.final_combinations@.len() == 0,
    {
        ProgramStorage {
            rect_configuration,
            gathered_combinations: Vec::new(),
            deduplicated_combinations: Vec::new(),
            solutions: Vec::new(),
            combined_solutions: Vec::new(),
            final_combinations: Vec::new(),
            settings,
        }
    }
}

} // verus!
