//! The failure taxonomy of the conversion core, and the user-facing
//! message for each failure.

use vstd::prelude::*;

use crate::text::{dec_of, push_dec};

verus! {

/// Which stage of frame decoding found the corruption.
#[derive(Clone, Copy, Debug, PartialEq, Eq, Structural)]
pub enum FrameCorruptKind {
    /// The transport string is not valid base64.
    Base64,
    /// The compressed block is corrupt or truncated.
    Decompress,
    /// The decompressed bytes do not have the declared frame size.
    SizeMismatch,
}

/// Raised when an image carries no metadata text chunk; holds the path
/// of the offending file.
#[derive(Debug)]
pub struct MissingMetadata(pub String);

/// Every failure the conversion core can surface.
#[derive(Debug)]
pub enum IconError {
    /// The metadata text does not match the grammar.
    GrammarMismatch,
    /// The grammar matched a prefix of the metadata text, but input
    /// remained after the terminating tag.
    TrailingInput,
    /// A state block lacks a required property; holds the state name
    /// and the property name.
    MissingRequiredField(String, String),
    /// A state block holds a property outside the recognized set;
    /// holds the property name.
    UnknownProperty(String),
    /// Declared and supplied frame counts for a state disagree; holds
    /// the state name, the expected count, and the actual count.
    FrameCountMismatch(String, u64, u64),
    /// The computed canvas dimensions exceed the configured maximum;
    /// holds the dimensions, saturated at the largest representable value.
    CanvasTooLarge(u64, u64),
    /// A frame's transport string is corrupt.
    FrameCorrupt(FrameCorruptKind),
    /// The layout's slot sequence ran out before every frame was
    /// placed: an internal defect, never a user input problem.
    LayoutExhausted,
}

/// The user-facing message of one failure.
pub open spec fn error_message_spec(e: IconError) -> Seq<char> {
    match e {
        IconError::GrammarMismatch => "icontool: Error parsing .dmi metadata"@,
        IconError::TrailingInput => "icontool: Incomplete parse of .dmi metadata"@,
        IconError::MissingRequiredField(state, field) => "icontool: icon_state '"@ + state@
            + "' is missing required property '"@ + field@ + "'"@,
        IconError::UnknownProperty(name) => "icontool: Unknown property '"@ + name@
            + "' in .dmi metadata"@,
        IconError::FrameCountMismatch(name, expected, actual) => "icontool: icon_state '"@
            + name@ + "' has a mismatched number of frames. Expected "@ + dec_of(
            expected as nat,
        ) + " frame(s) from the dmi metadata. Found "@ + dec_of(actual as nat)
            + " frame(s) in the YAML data."@,
        IconError::CanvasTooLarge(w, h) => "icontool: Attempted to resize image to "@ + dec_of(
            w as nat,
        ) + "x"@ + dec_of(h as nat) + " which is larger than the allowed maximum."@,
        IconError::FrameCorrupt(FrameCorruptKind::Base64) => "icontool: Unable to decode base64 data"@,
        IconError::FrameCorrupt(FrameCorruptKind::Decompress) => "icontool: Unable to decompress LZ4 data"@,
        IconError::FrameCorrupt(FrameCorruptKind::SizeMismatch) => "icontool: Decompressed frame does not match the declared frame size"@,
        IconError::LayoutExhausted => "icontool: YAML contains too many frames to paint.\nThis is a bug in icontool, please report it to the author of icontool."@,
    }
}

/// Renders one failure as its user-facing message.
pub fn get_error_message(e: &IconError) -> (r: String)
    ensures
        r@ == error_message_spec(*e),
{
    let mut s = String::new();
    match e {
        IconError::GrammarMismatch => {
            s.append("icontool: Error parsing .dmi metadata");
        },
        IconError::TrailingInput => {
            s.append("icontool: Incomplete parse of .dmi metadata");
        },
        IconError::MissingRequiredField(state, field) => {
            s.append("icontool: icon_state '");
            s.append(state.as_str());
            s.append("' is missing required property '");
            s.append(field.as_str());
            s.append("'");
        },
        IconError::UnknownProperty(name) => {
            s.append("icontool: Unknown property '");
            s.append(name.as_str());
            s.append("' in .dmi metadata");
        },
        IconError::FrameCountMismatch(name, expected, actual) => {
            s.append("icontool: icon_state '");
            s.append(name.as_str());
            s.append("' has a mismatched number of frames. Expected ");
            push_dec(&mut s, *expected);
            s.append(" frame(s) from the dmi metadata. Found ");
            push_dec(&mut s, *actual);
            s.append(" frame(s) in the YAML data.");
        },
        IconError::CanvasTooLarge(w, h) => {
            s.append("icontool: Attempted to resize image to ");
            push_dec(&mut s, *w);
            s.append("x");
            push_dec(&mut s, *h);
            s.append(" which is larger than the allowed maximum.");
        },
        IconError::FrameCorrupt(FrameCorruptKind::Base64) => {
            s.append("icontool: Unable to decode base64 data");
        },
        IconError::FrameCorrupt(FrameCorruptKind::Decompress) => {
            s.append("icontool: Unable to decompress LZ4 data");
        },
        IconError::FrameCorrupt(FrameCorruptKind::SizeMismatch) => {
            s.append("icontool: Decompressed frame does not match the declared frame size");
        },
        IconError::LayoutExhausted => {
            s.append("icontool: YAML contains too many frames to paint.\nThis is a bug in icontool, please report it to the author of icontool.");
        },
    }
    proof {
        assert(s@ =~= error_message_spec(*e));
    }
    s
}

} // verus!
