//! The parsed metadata document: one format version, one frame size,
//! and an ordered sequence of icon states. The order of the states is
//! significant: it fixes the raster order frames are packed in.

use vstd::prelude::*;

use crate::text::str_views;

verus! {


/// One named animation: a fixed number of facing directions and of
/// frames per direction, plus optional presentation properties kept as
/// raw, unvalidated tokens.
pub struct IconState {
    pub name: String,
    pub dirs: u32,
    pub frames: u32,
    pub delay: Option<Vec<String>>,
    pub hotspot: Option<Vec<String>>,
    pub loop_flag: Option<String>,
    pub movement_flag: Option<String>,
    pub rewind_flag: Option<String>,
}

/// The mathematical shadow of an [`IconState`].
pub struct IconStateView {
    pub name: Seq<char>,
    pub dirs: u32,
    pub frames: u32,
    pub delay: Option<Seq<Seq<char>>>,
    pub hotspot: Option<Seq<Seq<char>>>,
    pub loop_flag: Option<Seq<char>>,
    pub movement_flag: Option<Seq<char>>,
    pub rewind_flag: Option<Seq<char>>,
}

impl View for IconState {
    type V = IconStateView;

    open spec fn view(&self) -> IconStateView {
        IconStateView {
            name: self.name@,
            dirs: self.dirs,
            frames: self.frames,
            delay: match self.delay {
                Some(v) => Some(str_views(v@)),
                None => None,
            },
            hotspot: match self.hotspot {
                Some(v) => Some(str_views(v@)),
                None => None,
            },
            loop_flag: match self.loop_flag {
                Some(s) => Some(s@),
                None => None,
            },
            movement_flag: match self.movement_flag {
                Some(s) => Some(s@),
                None => None,
            },
            rewind_flag: match self.rewind_flag {
                Some(s) => Some(s@),
                None => None,
            },
        }
    }
}

/// The views of a sequence of icon states.
pub open spec fn states_view(v: Seq<IconState>) -> Seq<IconStateView> {
    v.map_values(|s: IconState| s@)
}

/// The parsed metadata document.
pub struct DreamMakerIconMetadata {
    pub version_major: u32,
    pub version_minor: u32,
    pub width: u32,
    pub height: u32,
    pub states: Vec<IconState>,
}

/// The mathematical shadow of a [`DreamMakerIconMetadata`].
pub struct DreamMakerIconMetadataView {
    pub version_major: u32,
    pub version_minor: u32,
    pub width: u32,
    pub height: u32,
    pub states: Seq<IconStateView>,
}

impl View for DreamMakerIconMetadata {
    type V = DreamMakerIconMetadataView;

    open spec fn view(&self) -> DreamMakerIconMetadataView {
        DreamMakerIconMetadataView {
            version_major: self.version_major,
            version_minor: self.version_minor,
            width: self.width,
            height: self.height,
            states: states_view(self.states@),
        }
    }
}

/// The number of pixel blocks one state occupies in the canvas.
pub open spec fn state_frame_count(s: IconStateView) -> int {
    s.dirs * s.frames
}

/// The number of pixel blocks the whole document occupies: the sum of
/// `dirs * frames` over its states, in order.
pub open spec fn frames_needed_spec(states: Seq<IconStateView>) -> int
    decreases states.len(),
{
    if states.len() == 0 {
        0
    } else {
        frames_needed_spec(states.drop_last()) + state_frame_count(states.last())
    }
}

pub proof fn lemma_frames_needed_nonneg(states: Seq<IconStateView>)
    ensures
        frames_needed_spec(states) >= 0,
    decreases states.len(),
{
    if states.len() > 0 {
        lemma_frames_needed_nonneg(states.drop_last());
    }
}

/// The number of pixel blocks of the states before `k`, in document order.
pub open spec fn frames_before_spec(states: Seq<IconStateView>, k: int) -> int {
    frames_needed_spec(states.subrange(0, k))
}

pub proof fn lemma_frames_needed_step(states: Seq<IconStateView>, k: int)
    requires
        0 <= k < states.len(),
    ensures
        frames_before_spec(states, k + 1) == frames_before_spec(states, k) + state_frame_count(
            states[k],
        ),
{
    assert(states.subrange(0, k + 1).drop_last() =~= states.subrange(0, k));
    assert(states.subrange(0, k + 1).last() == states[k]);
}

pub proof fn lemma_frames_before_le(states: Seq<IconStateView>, k: int)
    requires
        0 <= k <= states.len(),
    ensures
        frames_before_spec(states, k) <= frames_needed_spec(states),
    decreases states.len() - k,
{
    if k == states.len() {
        assert(states.subrange(0, k) =~= states);
    } else {
        lemma_frames_needed_step(states, k);
        lemma_frames_before_le(states, k + 1);
    }
}

} // verus!
