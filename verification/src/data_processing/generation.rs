//! The course of generating a world.

use crate::data_processing::stages::Stage;
use crate::text::{append_decimal, decimal};
use std::path::PathBuf;
use vstd::prelude::*;

verus! {

/// The format that a world is saved in.
#[derive(Clone, Copy, Debug, PartialEq, Eq, Structural)]
pub enum WorldFormat {
    JavaAnvil,
    BedrockMcWorld,
}

/// What is asked of a generation besides the command line.
pub struct GenerationOptions {
    pub path: PathBuf,
    pub format: WorldFormat,
    pub level_name: Option<String>,
    pub spawn_point: Option<(i32, i32)>,
}

impl Clone for GenerationOptions {
    fn clone(&self) -> (copy: GenerationOptions)
        ensures
            copy == *self,
    {
        GenerationOptions {
            path: self.path.clone(),
            format: self.format,
            level_name: self.level_name.clone(),
            spawn_point: self.spawn_point,
        }
    }
}

/// A step of a generation, up to saving.
#[derive(Clone, Copy, Debug, PartialEq, Eq, Structural)]
pub enum Step {
    /// Find out how the highways are connected.
    ConnectHighways,
    /// Give the ground to what places blocks.
    SetGround,
    /// Fill all outlines.
    FillOutlines,
    /// Collect the places that buildings stand on.
    CollectFootprints,
    /// Collect the centres of the buildings.
    CollectCentroids,
    /// Process elements.
    Process(Stage),
    /// Find out which ground is in a city.
    FindUrbanGround,
    /// Lay the ground.
    LayGround,
    /// Save the world.
    Save,
}

/// The steps up to saving. The centres of the buildings are collected only if the bounds
/// of cities count; everything else that the elements need comes before the stages.
pub open spec fn steps_of(city_boundaries: bool, stages: Seq<Stage>) -> Seq<Step> {
    let prepared = seq![
        Step::ConnectHighways,
        Step::SetGround,
        Step::FillOutlines,
        Step::CollectFootprints,
    ];
    let collected = if city_boundaries {
        prepared.push(Step::CollectCentroids)
    } else {
        prepared
    };
    collected + Seq::new(stages.len(), |s: int| Step::Process(stages[s])) + seq![
        Step::FindUrbanGround,
        Step::LayGround,
        Step::Save,
    ]
}

/// The steps of a generation, up to saving.
pub fn generation_steps(city_boundaries: bool, stages: &Vec<Stage>) -> (steps: Vec<Step>)
    ensures
        steps@ == steps_of(city_boundaries, stages@),
        steps@.len() == stages@.len() + (if city_boundaries {
            8int
        } else {
            7int
        }),
        steps@[0] == Step::ConnectHighways,
        steps@[1] == Step::SetGround,
        steps@[2] == Step::FillOutlines,
        steps@[3] == Step::CollectFootprints,
        city_boundaries ==> steps@[4] == Step::CollectCentroids,
        forall|s: int|
            0 <= s < stages@.len() ==> steps@[steps@.len() - 3 - stages@.len() + s] == Step::Process(
                #[trigger] stages@[s],
            ),
        steps@[steps@.len() - 3] == Step::FindUrbanGround,
        steps@[steps@.len() - 2] == Step::LayGround,
        steps@[steps@.len() - 1] == Step::Save,
{
    let mut steps: Vec<Step> = Vec::new();
    steps.push(Step::ConnectHighways);
    steps.push(Step::SetGround);
    steps.push(Step::FillOutlines);
    steps.push(Step::CollectFootprints);
    if city_boundaries {
        steps.push(Step::CollectCentroids);
    }
    let ghost before = steps@;
    let mut s: usize = 0;
    while s < stages.len()
        invariant
            s <= stages@.len(),
            steps@ == before + Seq::new(s as nat, |i: int| Step::Process(stages@[i])),
        decreases stages@.len() - s,
    {
        steps.push(Step::Process(stages[s]));
        proof {
            assert(steps@ == before + Seq::new((s + 1) as nat, |i: int| Step::Process(stages@[i])));
        }
        s = s + 1;
    }
    steps.push(Step::FindUrbanGround);
    steps.push(Step::LayGround);
    steps.push(Step::Save);
    steps
}

/// Every step that prepares comes before the elements, the ground is laid once, behind all
/// elements and before the world is saved, and saving is the last step. All this is so
/// whether or not the bounds of cities count.
pub proof fn law_ground_laid_before_saving(city_boundaries: bool, stages: Seq<Stage>, i: int)
    requires
        0 <= i < steps_of(city_boundaries, stages).len(),
    ensures
        ({
            let steps = steps_of(city_boundaries, stages);
            let save = steps.len() - 1;
            let ground = steps.len() - 2;
            let cities = steps.len() - 3;
            let first = steps.len() - 3 - stages.len();
            &&& steps[i] == Step::Save <==> i == save
            &&& steps[i] == Step::LayGround <==> i == ground
            &&& steps[i] == Step::FindUrbanGround <==> i == cities
            &&& steps[i] is Process <==> first <= i < cities
            &&& first <= i < cities ==> steps[i] == Step::Process(stages[i - first])
            &&& steps[i] == Step::ConnectHighways <==> i == 0
            &&& steps[i] == Step::SetGround <==> i == 1
            &&& steps[i] == Step::FillOutlines <==> i == 2
            &&& steps[i] == Step::CollectFootprints <==> i == 3
            &&& steps[i] == Step::CollectCentroids <==> city_boundaries && i == 4
            &&& first == if city_boundaries {
                5int
            } else {
                4int
            }
        }),
{
}

/// Whether the bounds of cities count makes no difference but that the centres of the
/// buildings are collected: without that step both courses are the same.
pub proof fn law_cities_add_one_step(stages: Seq<Stage>)
    ensures
        steps_of(true, stages).remove(4) == steps_of(false, stages),
        steps_of(true, stages)[4] == Step::CollectCentroids,
        !steps_of(false, stages).contains(Step::CollectCentroids),
{
    let with = steps_of(true, stages);
    let without = steps_of(false, stages);
    assert(with.remove(4) =~= without);
    assert forall|i: int| 0 <= i < without.len() implies #[trigger] without[i]
        != Step::CollectCentroids by {
        law_ground_laid_before_saving(false, stages, i);
    }
}

/// Whether any ground can be in a city: the bounds of cities count, and there are buildings.
pub fn has_cities(city_boundaries: bool, centroids: usize) -> (cities: bool)
    ensures
        cities == (city_boundaries && centroids > 0),
{
    city_boundaries && centroids > 0
}

/// A step after a world was saved.
#[derive(Debug)]
pub enum FinishingStep {
    /// Set the height at which the player starts.
    UpdateSpawn,
    /// Open the file with the given path.
    OpenMcworld(String),
}

/// The steps after a world was saved, or the reason why it was not. The height at which the
/// player starts is set in a Java world that has a directory, if the program has a window;
/// a Bedrock world is opened if its path is text.
pub fn finishing_steps(
    saved: Result<(), String>,
    format: WorldFormat,
    has_window: bool,
    has_directory: bool,
    output_path: Option<String>,
) -> (steps: Result<Vec<FinishingStep>, String>)
    ensures
        match saved {
            Err(error) => steps matches Err(reason) && reason@ == error@,
            Ok(()) => steps matches Ok(list) && match format {
                WorldFormat::JavaAnvil => list@ == if has_window && has_directory {
                    seq![FinishingStep::UpdateSpawn]
                } else {
                    Seq::empty()
                },
                WorldFormat::BedrockMcWorld => match output_path {
                    Some(path) => list@ == seq![FinishingStep::OpenMcworld(path)],
                    None => list@ == Seq::<FinishingStep>::empty(),
                },
            },
        },
{
    match saved {
        Err(error) => Err(error),
        Ok(()) => {
            let mut steps: Vec<FinishingStep> = Vec::new();
            match format {
                WorldFormat::JavaAnvil => {
                    if has_window && has_directory {
                        steps.push(FinishingStep::UpdateSpawn);
                    }
                },
                WorldFormat::BedrockMcWorld => {
                    if let Some(path) = output_path {
                        steps.push(FinishingStep::OpenMcworld(path));
                    }
                },
            }
            Ok(steps)
        },
    }
}

/// The bounds of a box as text, from the texts of its edges.
pub fn bbox_text(min_lat: &str, min_lng: &str, max_lat: &str, max_lng: &str) -> (text: String)
    ensures
        text@ == min_lat@ + ","@ + min_lng@ + ","@ + max_lat@ + ","@ + max_lng@,
{
    let mut text = min_lat.to_string();
    text.append(",");
    text.append(min_lng);
    text.append(",");
    text.append(max_lat);
    text.append(",");
    text.append(max_lng);
    text
}

/// What is told when the height at which the player starts could not be set.
pub fn spawn_warning(error: &str) -> (text: String)
    ensures
        text@ == "Failed to update spawn point Y coordinate: "@ + error@,
{
    let mut text = "Failed to update spawn point Y coordinate: ".to_string();
    text.append(error);
    text
}

/// What is shown of an element while it is processed, if details are asked for.
pub fn element_message(debug: bool, id: u64, kind: &str) -> (text: String)
    ensures
        text@ == if debug {
            "(Element ID: "@ + decimal(id as nat) + " / Type: "@ + kind@ + ")"@
        } else {
            Seq::empty()
        },
{
    if debug {
        let mut text = "(Element ID: ".to_string();
        append_decimal(&mut text, id);
        text.append(" / Type: ");
        text.append(kind);
        text.append(")");
        text
    } else {
        String::new()
    }
}

} // verus!
