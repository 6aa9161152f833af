//! Fixed keys and policy limits shared by the compile and decompile passes.

use vstd::prelude::*;

verus! {

/// Key under which the raw metadata text is stored in the textual container.
pub const DMI_METADATA_KEY: &'static str = "__dmi_metadata";

/// Key under which the source file path is stored in the textual container.
pub const DMI_PATH_KEY: &'static str = "__dmi_path";

/// Key under which the canvas height is stored in the textual container.
pub const IMAGE_HEIGHT_KEY: &'static str = "__image_height";

/// Key under which the canvas width is stored in the textual container.
pub const IMAGE_WIDTH_KEY: &'static str = "__image_width";

/// Default policy limit on canvas height, in pixels.
pub const MAX_IMAGE_HEIGHT: u32 = 6144;

/// Default policy limit on canvas width, in pixels.
pub const MAX_IMAGE_WIDTH: u32 = 6144;

/// Keyword of the image text chunk that carries the metadata string.
pub const ZTXT_KEYWORD: &'static str = "Description";

/// The container keys reserved by the tool itself; every other key names
/// the frame data of one icon state.
pub fn icontool_keys() -> (r: [&'static str; 4])
    ensures
        r[0]@ == DMI_METADATA_KEY@,
        r[1]@ == DMI_PATH_KEY@,
        r[2]@ == IMAGE_HEIGHT_KEY@,
        r[3]@ == IMAGE_WIDTH_KEY@,
{
    [DMI_METADATA_KEY, DMI_PATH_KEY, IMAGE_HEIGHT_KEY, IMAGE_WIDTH_KEY]
}

} // verus!
