//! Data shared between the camera/classifier pipeline and a user
//! interface.  The capture loop itself is an external collaborator; these
//! types carry plain values across that boundary.

use vstd::prelude::*;

use crate::classify::DotLocationInfo;
use crate::pathfind::Instruction;
use crate::render::GridRepresentation;

verus! {

/// Which camera device to open: a backend index or a device name.
#[derive(Debug, Clone)]
pub enum CameraId {
    Index(u32),
    Name(String),
}

/// One processed camera frame with its derived grid thumbnails.
pub struct CameraFrameInfo {
    pub frame: Vec<u8>,
    pub frame_width: usize,
    pub frame_height: usize,
    pub unsolved_grid: GridRepresentation,
    pub solved_grid: GridRepresentation,
}

/// The processing pipeline's shared settings and results.
pub struct CameraSettings {
    pub dot_locations: DotLocationInfo,
    pub is_actually_solved: bool,
    pub is_auto_adjusting_brightness: bool,
    pub path: Option<Vec<Instruction>>,
    pub available_cams: (Vec<String>, Vec<CameraId>),
    pub is_camera_feed: bool,
}

/// A request for the capture loop.
pub enum DeviceSelect {
    Select(CameraId),
    RefreshList,
}

/// One step of the automatic brightness calibration, taken after a frame
/// was classified and solved (or not).
///
/// While frames stay unsolved the threshold is lowered one unit at a time
/// until a floor of 20 stops the search; the first solved frame backs the
/// threshold off by 20 and ends the adjustment.
pub fn adjust_brightness(settings: &mut CameraSettings, is_solved: bool)
    requires
        (is_solved && old(settings).is_auto_adjusting_brightness) ==> old(
            settings,
        ).dot_locations.brightness_thresh >= 20,
    ensures
        final(settings).dot_locations.brightness_thresh == (if old(
            settings,
        ).is_auto_adjusting_brightness {
            if !is_solved {
                if old(settings).dot_locations.brightness_thresh < 20 {
                    old(settings).dot_locations.brightness_thresh as int
                } else {
                    old(settings).dot_locations.brightness_thresh - 1
                }
            } else {
                old(settings).dot_locations.brightness_thresh - 20
            }
        } else {
            old(settings).dot_locations.brightness_thresh as int
        }),
        final(settings).is_auto_adjusting_brightness == (old(
            settings,
        ).is_auto_adjusting_brightness && !is_solved && old(
            settings,
        ).dot_locations.brightness_thresh >= 20),
        final(settings).dot_locations.point_locations == old(
            settings,
        ).dot_locations.point_locations,
        final(settings).dot_locations.dot_size == old(settings).dot_locations.dot_size,
        final(settings).is_actually_solved == old(settings).is_actually_solved,
        final(settings).path == old(settings).path,
        final(settings).available_cams == old(settings).available_cams,
        final(settings).is_camera_feed == old(settings).is_camera_feed,
{
    if settings.is_auto_adjusting_brightness && !is_solved {
        if settings.dot_locations.brightness_thresh < 20 {
            settings.is_auto_adjusting_brightness = false;
        } else {
            settings.dot_locations.brightness_thresh =
                settings.dot_locations.brightness_thresh - 1;
        }
    } else if is_solved && settings.is_auto_adjusting_brightness {
        settings.is_auto_adjusting_brightness = false;
        settings.dot_locations.brightness_thresh =
            settings.dot_locations.brightness_thresh - 20;
    }
}

} // verus!
