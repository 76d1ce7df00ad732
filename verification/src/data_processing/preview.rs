//! The map preview that is drawn of a finished world.

use crate::coordinate_system::XZBBox;
use std::path::PathBuf;
use vstd::prelude::*;

verus! {

/// A path of a file system. Nothing is known of what is inside: a path is only handed on.
#[verifier::external_type_specification]
#[verifier::external_body]
pub struct ExPathBuf(std::path::PathBuf);

/// `PathBuf::clone`: the same path.
pub assume_specification[ <std::path::PathBuf as Clone>::clone ](path: &std::path::PathBuf) -> (copy:
    std::path::PathBuf)
    ensures
        copy == *path,
;

/// The largest area of which a preview is drawn.
pub const MAX_MAP_PREVIEW_AREA: i64 = 6400 * 6900;

/// What a preview is drawn from.
pub struct MapPreviewInfo {
    pub world_path: PathBuf,
    pub min_x: i32,
    pub max_x: i32,
    pub min_z: i32,
    pub max_z: i32,
    pub world_area: i64,
}

impl Clone for MapPreviewInfo {
    fn clone(&self) -> (copy: MapPreviewInfo)
        ensures
            copy == *self,
    {
        MapPreviewInfo {
            world_path: self.world_path.clone(),
            min_x: self.min_x,
            max_x: self.max_x,
            min_z: self.min_z,
            max_z: self.max_z,
            world_area: self.world_area,
        }
    }
}

impl MapPreviewInfo {
    /// The preview of a world with the given bounds.
    pub fn new(world_path: PathBuf, xzbbox: &XZBBox) -> (info: MapPreviewInfo)
        requires
            i32::MIN <= xzbbox.max_x - xzbbox.min_x <= i32::MAX,
            i32::MIN <= xzbbox.max_z - xzbbox.min_z <= i32::MAX,
        ensures
            info == (MapPreviewInfo {
                world_path,
                min_x: xzbbox.min_x,
                max_x: xzbbox.max_x,
                min_z: xzbbox.min_z,
                max_z: xzbbox.max_z,
                world_area: info.world_area,
            }),
            info.world_area == (xzbbox.max_x - xzbbox.min_x) * (xzbbox.max_z - xzbbox.min_z),
    {
        let width: i64 = (xzbbox.max_x - xzbbox.min_x) as i64;
        let height: i64 = (xzbbox.max_z - xzbbox.min_z) as i64;
        proof {
            assert(-0x4000_0000_0000_0000 <= width * height <= 0x4000_0000_0000_0000)
                by (nonlinear_arith)
                requires
                    -0x8000_0000 <= width <= 0x7fff_ffff,
                    -0x8000_0000 <= height <= 0x7fff_ffff,
            ;
        }
        MapPreviewInfo {
            world_path,
            min_x: xzbbox.min_x,
            max_x: xzbbox.max_x,
            min_z: xzbbox.min_z,
            max_z: xzbbox.max_z,
            world_area: width * height,
        }
    }

    /// Whether the world is small enough for a preview. That previews are for Java worlds is
    /// left to the caller, who knows the format.
    pub fn is_within_limit(&self) -> (within: bool)
        ensures
            within == (self.world_area <= MAX_MAP_PREVIEW_AREA),
    {
        self.world_area <= MAX_MAP_PREVIEW_AREA
    }
}

/// How drawing a preview has ended.
#[derive(Debug)]
pub enum PreviewResult {
    Drawn,
    Failed(String),
    Panicked,
}

/// What is told of a preview.
#[derive(Debug)]
pub enum PreviewNotice {
    /// The preview can be shown.
    Ready,
    /// There is no preview, for the reason in the text.
    Warning(String),
}

/// What is told when drawing a preview has ended.
pub fn preview_notice(result: PreviewResult) -> (notice: PreviewNotice)
    ensures
        match result {
            PreviewResult::Drawn => notice == PreviewNotice::Ready,
            PreviewResult::Failed(error) => notice matches PreviewNotice::Warning(text) && text@
                == "Warning: Failed to generate map preview: "@ + error@,
            PreviewResult::Panicked => notice matches PreviewNotice::Warning(text) && text@
                == "Warning: Map preview generation panicked unexpectedly"@,
        },
{
    match result {
        PreviewResult::Drawn => PreviewNotice::Ready,
        PreviewResult::Failed(error) => {
            let mut text = "Warning: Failed to generate map preview: ".to_string();
            text.append(error.as_str());
            PreviewNotice::Warning(text)
        },
        PreviewResult::Panicked => PreviewNotice::Warning(
            "Warning: Map preview generation panicked unexpectedly".to_string(),
        ),
    }
}

} // verus!
