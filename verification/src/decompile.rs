//! The sheet unpacker: reads each planned slot's pixel block out of
//! the canvas, encodes it as a transport string, and assembles the
//! per-state sequences in document order.

use vstd::prelude::*;

use crate::canvas::{canvas_wf, extract_spec, Canvas};
use crate::cmdline::DecompileArgs;
use crate::codec::{encode_frame, encode_frame_spec};
use crate::constant::{DMI_METADATA_KEY, DMI_PATH_KEY, IMAGE_HEIGHT_KEY, IMAGE_WIDTH_KEY};
use crate::dmi::{
    frames_before_spec, frames_needed_spec, lemma_frames_before_le, lemma_frames_needed_step,
    state_frame_count, DreamMakerIconMetadata, IconStateView,
};
use crate::layout::{frame_slot, plan_capacity, plan_wf, slot_of, CanvasPlan};
use crate::text::{join_with, join_with_spec, set_ext_spec, set_extension, str_views};

verus! {

/// One unpacked state: its name and its newline-joined transport
/// strings.
pub struct IconStatePixels {
    pub key: String,
    pub value: String,
}

/// The transport strings of one state's frames: each planned slot's
/// pixel block, encoded, in slot order starting at `offset`.
pub open spec fn encode_state_spec(
    cv: Seq<u8>,
    plan: CanvasPlan,
    offset: int,
    count: int,
) -> Seq<Seq<char>> {
    Seq::new(
        count as nat,
        |f: int|
            encode_frame_spec(
                extract_spec(
                    cv,
                    plan.width as int,
                    slot_of(plan, offset + f).x as int,
                    slot_of(plan, offset + f).y as int,
                    plan.frame_width as int,
                    plan.frame_height as int,
                ),
            ),
    )
}

/// The newline-joined transport value of one state.
pub open spec fn state_value_spec(
    cv: Seq<u8>,
    plan: CanvasPlan,
    states: Seq<IconStateView>,
    k: int,
) -> Seq<char> {
    join_with_spec(
        encode_state_spec(cv, plan, frames_before_spec(states, k), state_frame_count(states[k])),
        '\n',
    )
}

/// Reads every state's frames back out of the canvas, at the very
/// slots the layout planned, and encodes them.
pub fn extract_icon_states(
    canvas: &Canvas,
    dmi: &DreamMakerIconMetadata,
    plan: &CanvasPlan,
) -> (r: Vec<IconStatePixels>)
    requires
        canvas_wf(*canvas),
        canvas.width == plan.width,
        canvas.height == plan.height,
        plan_wf(*plan),
        plan.frame_width == dmi.width,
        plan.frame_height == dmi.height,
        frames_needed_spec(dmi@.states) <= plan_capacity(*plan),
        dmi.width as int * dmi.height as int * 4 <= u32::MAX,
    ensures
        r@.len() == dmi.states@.len(),
        forall|k: int|
            0 <= k < r@.len() ==> (#[trigger] r@[k]).key@ == dmi@.states[k].name,
        forall|k: int|
            0 <= k < r@.len() ==> (#[trigger] r@[k]).value@ == state_value_spec(
                canvas@,
                *plan,
                dmi@.states,
                k,
            ),
{
    let ghost sv = dmi@.states;
    proof {
        crate::layout::lemma_capacity_bound(*plan);
        assert(sv.subrange(0, 0) =~= Seq::<IconStateView>::empty());
    }
    let mut r: Vec<IconStatePixels> = Vec::new();
    let mut offset: u64 = 0;
    let mut k: usize = 0;
    while k < dmi.states.len()
        invariant
            0 <= k <= dmi.states@.len(),
            sv == dmi@.states,
            sv.len() == dmi.states@.len(),
            offset == frames_before_spec(sv, k as int),
            frames_needed_spec(sv) <= plan_capacity(*plan),
            plan_capacity(*plan) < 0x1_0000_0000_0000_0000,
            plan_wf(*plan),
            plan.frame_width == dmi.width,
            plan.frame_height == dmi.height,
            canvas_wf(*canvas),
            canvas.width == plan.width,
            canvas.height == plan.height,
            dmi.width as int * dmi.height as int * 4 <= u32::MAX,
            r@.len() == k,
            forall|j: int|
                0 <= j < r@.len() ==> (#[trigger] r@[j]).key@ == sv[j].name,
            forall|j: int|
                0 <= j < r@.len() ==> (#[trigger] r@[j]).value@ == state_value_spec(
                    canvas@,
                    *plan,
                    sv,
                    j,
                ),
        decreases dmi.states@.len() - k,
    {
        let st = &dmi.states[k];
        proof {
            assert((st.dirs as u64) * (st.frames as u64) < 0x1_0000_0000_0000_0000)
                by (nonlinear_arith)
                requires
                    st.dirs <= 0xffff_ffffu64 && st.frames <= 0xffff_ffffu64,
            ;
            lemma_frames_needed_step(sv, k as int);
            assert(sv[k as int] == st@);
            lemma_frames_before_le(sv, k + 1);
        }
        let count: u64 = (st.dirs as u64) * (st.frames as u64);
        let mut frames_strs: Vec<String> = Vec::new();
        let mut f: u64 = 0;
        while f < count
            invariant
                0 <= f <= count,
                offset == frames_before_spec(sv, k as int),
                count == state_frame_count(sv[k as int]),
                offset + count == frames_before_spec(sv, k as int + 1),
                frames_before_spec(sv, k as int + 1) <= frames_needed_spec(sv),
                frames_needed_spec(sv) <= plan_capacity(*plan),
                plan_capacity(*plan) < 0x1_0000_0000_0000_0000,
                plan_wf(*plan),
                canvas_wf(*canvas),
                canvas.width == plan.width,
                canvas.height == plan.height,
                plan.frame_width as int * plan.frame_height as int * 4 <= u32::MAX,
                plan.frame_width >= 1,
                plan.frame_height >= 1,
                frames_strs@.len() == f,
                forall|g: int|
                    0 <= g < f ==> (#[trigger] frames_strs@[g])@ == encode_state_spec(
                        canvas@,
                        *plan,
                        offset as int,
                        count as int,
                    )[g],
            decreases count - f,
        {
            let slot = frame_slot(plan, offset + f);
            let data = canvas.extract_pixel_data(
                slot.x,
                slot.y,
                plan.frame_width,
                plan.frame_height,
            );
            proof {
                assert(data@.len() == plan.frame_width as int * plan.frame_height as int
                    * 4);
            }
            let s = encode_frame(&data);
            frames_strs.push(s);
            f = f + 1;
        }
        let value = join_with(&frames_strs, '\n');
        proof {
            assert(str_views(frames_strs@) =~= encode_state_spec(
                canvas@,
                *plan,
                offset as int,
                count as int,
            ));
        }
        let key = st.name.clone();
        r.push(IconStatePixels { key, value });
        offset = offset + count;
        k = k + 1;
    }
    r
}

/// Round-trip law of the two directions: on a canvas where the packer
/// painted the given frames at their planned slots, the value the
/// unpacker assembles for state `k` is the newline-join of the
/// re-encodings of exactly that state's frames. The two directions
/// share one slot sequence, so they can never disagree on a pixel.
pub proof fn lemma_unpack_of_packed(
    cv0: Seq<u8>,
    plan: CanvasPlan,
    states: Seq<IconStateView>,
    frames: Seq<Seq<u8>>,
    k: int,
)
    requires
        plan_wf(plan),
        cv0.len() == plan.width as int * plan.height as int * 4,
        frames.len() == frames_needed_spec(states),
        frames_needed_spec(states) <= plan_capacity(plan),
        forall|i: int|
            0 <= i < frames.len() ==> (#[trigger] frames[i]).len() == plan.frame_width as int
                * plan.frame_height as int * 4,
        0 <= k < states.len(),
    ensures
        state_value_spec(
            crate::compile::paint_all_spec(cv0, plan, frames, 0),
            plan,
            states,
            k,
        ) == join_with_spec(
            Seq::new(
                state_frame_count(states[k]) as nat,
                |f: int| encode_frame_spec(frames[frames_before_spec(states, k) + f]),
            ),
            '\n',
        ),
{
    let painted = crate::compile::paint_all_spec(cv0, plan, frames, 0);
    let offset = frames_before_spec(states, k);
    let count = state_frame_count(states[k]);
    crate::dmi::lemma_frames_needed_nonneg(states.subrange(0, k));
    lemma_frames_needed_step(states, k);
    lemma_frames_before_le(states, k + 1);
    assert(offset >= 0);
    assert(offset + count <= frames.len());
    assert forall|f: int|
        0 <= f < count implies encode_state_spec(painted, plan, offset, count)[f]
        == encode_frame_spec(frames[offset + f]) by {
        crate::compile::lemma_paint_all_extract(cv0, plan, frames, 0, offset + f);
    }
    assert(encode_state_spec(painted, plan, offset, count) =~= Seq::new(
        count as nat,
        |f: int| encode_frame_spec(frames[offset + f]),
    ));
}

/// One entry value of the textual container.
pub enum ContainerValue {
    Text(String),
    Number(u32),
}

/// Assembles the whole decompiled document as an ordered sequence of
/// container entries: the source path, the canvas dimensions, every
/// state's transport value in document order, and the raw metadata
/// text last.
pub fn decompile_icon(
    path: &str,
    canvas: &Canvas,
    text: &str,
    dmi: &DreamMakerIconMetadata,
    plan: &CanvasPlan,
) -> (r: Vec<(String, ContainerValue)>)
    requires
        canvas_wf(*canvas),
        canvas.width == plan.width,
        canvas.height == plan.height,
        plan_wf(*plan),
        plan.frame_width == dmi.width,
        plan.frame_height == dmi.height,
        frames_needed_spec(dmi@.states) <= plan_capacity(*plan),
        dmi.width as int * dmi.height as int * 4 <= u32::MAX,
    ensures
        r@.len() == dmi.states@.len() + 4,
        r@[0].0@ == DMI_PATH_KEY@,
        r@[0].1 matches ContainerValue::Text(p) && p@ == path@,
        r@[1].0@ == IMAGE_WIDTH_KEY@,
        r@[1].1 matches ContainerValue::Number(w) && w == canvas.width,
        r@[2].0@ == IMAGE_HEIGHT_KEY@,
        r@[2].1 matches ContainerValue::Number(h) && h == canvas.height,
        forall|k: int|
            0 <= k < dmi.states@.len() ==> (#[trigger] r@[3 + k]).0@ == dmi@.states[k].name,
        forall|k: int|
            0 <= k < dmi.states@.len() ==> ((#[trigger] r@[3 + k]).1 matches
                ContainerValue::Text(v) && v@ == state_value_spec(
                canvas@,
                *plan,
                dmi@.states,
                k,
            )),
        r@[r@.len() - 1].0@ == DMI_METADATA_KEY@,
        r@[r@.len() - 1].1 matches ContainerValue::Text(t) && t@ == text@,
{
    let mut r: Vec<(String, ContainerValue)> = Vec::new();
    r.push(
        (String::from_str(DMI_PATH_KEY), ContainerValue::Text(String::from_str(path))),
    );
    r.push((String::from_str(IMAGE_WIDTH_KEY), ContainerValue::Number(canvas.width)));
    r.push((String::from_str(IMAGE_HEIGHT_KEY), ContainerValue::Number(canvas.height)));
    let states = extract_icon_states(canvas, dmi, plan);
    let mut k: usize = 0;
    while k < states.len()
        invariant
            0 <= k <= states@.len(),
            states@.len() == dmi.states@.len(),
            forall|j: int|
                0 <= j < states@.len() ==> (#[trigger] states@[j]).key@ == dmi@.states[j].name,
            forall|j: int|
                0 <= j < states@.len() ==> (#[trigger] states@[j]).value@ == state_value_spec(
                    canvas@,
                    *plan,
                    dmi@.states,
                    j,
                ),
            r@.len() == 3 + k,
            r@[0].0@ == DMI_PATH_KEY@,
            r@[0].1 matches ContainerValue::Text(p) && p@ == path@,
            r@[1].0@ == IMAGE_WIDTH_KEY@,
            r@[1].1 matches ContainerValue::Number(w) && w == canvas.width,
            r@[2].0@ == IMAGE_HEIGHT_KEY@,
            r@[2].1 matches ContainerValue::Number(h) && h == canvas.height,
            forall|j: int|
                0 <= j < k ==> (#[trigger] r@[3 + j]).0@ == dmi@.states[j].name,
            forall|j: int|
                0 <= j < k ==> ((#[trigger] r@[3 + j]).1 matches ContainerValue::Text(v)
                    && v@ == state_value_spec(
                    canvas@,
                    *plan,
                    dmi@.states,
                    j,
                )),
        decreases states@.len() - k,
    {
        let st = &states[k];
        r.push((st.key.clone(), ContainerValue::Text(st.value.clone())));
        k = k + 1;
    }
    r.push((String::from_str(DMI_METADATA_KEY), ContainerValue::Text(String::from_str(text))));
    r
}

/// Computes where the decompiled container goes: the explicit output
/// when one was given, else the input path with a `dmi.yml` extension.
pub fn get_output_path(args: &DecompileArgs) -> (r: String)
    ensures
        match args.output {
            Some(o) => r@ == o@,
            None => r@ == set_ext_spec(args.file@, "dmi.yml"@),
        },
{
    match &args.output {
        Some(o) => o.clone(),
        None => set_extension(args.file.as_str(), "dmi.yml"),
    }
}

} // verus!
