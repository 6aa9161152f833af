//! The sheet packer: decodes every state's transport strings and
//! writes the frames into the canvas at the positions the layout
//! planned. Everything is validated before the first pixel is
//! written, so a failing pack leaves the canvas untouched.

use vstd::prelude::*;

use crate::canvas::{blit_spec, canvas_wf, extract_spec, Canvas};
use crate::codec::{decode_frame, decode_frame_spec};
use crate::constant::{DMI_METADATA_KEY, DMI_PATH_KEY, IMAGE_HEIGHT_KEY, IMAGE_WIDTH_KEY};
use crate::dmi::{
    frames_before_spec, frames_needed_spec, lemma_frames_before_le, lemma_frames_needed_step,
    state_frame_count, DreamMakerIconMetadata, IconState, IconStateView,
};
use crate::error::{FrameCorruptKind, IconError};
use crate::layout::{frame_slot, plan_capacity, plan_wf, slot_of, CanvasPlan};
use crate::text::{
    dir_len, dir_len_of, last_dot, set_ext_spec, set_extension, split_on, split_on_spec, str_eq,
    str_views,
};

verus! {

/// The views of a sequence of byte vectors.
pub open spec fn byte_views(v: Seq<Vec<u8>>) -> Seq<Seq<u8>> {
    v.map_values(|b: Vec<u8>| b@)
}

/// The ways a pack can fail, at specification level.
pub enum PackFailure {
    /// A state's transport strings do not number `dirs * frames`.
    CountMismatch { state: Seq<char>, expected: int, actual: int },
    /// A frame's transport string is corrupt.
    Corrupt { kind: FrameCorruptKind },
}

/// Whether the executable error carries the same failure as the
/// specification-level one.
pub open spec fn pack_err_matches(e: IconError, f: PackFailure) -> bool {
    match f {
        PackFailure::CountMismatch { state, expected, actual } => e matches
            IconError::FrameCountMismatch(n, ex, ac) && n@ == state && ex == expected && ac
            == actual,
        PackFailure::Corrupt { kind } => e matches IconError::FrameCorrupt(k) && k == kind,
    }
}

/// The frames of one state decoded in order; the first corrupt one
/// wins.
pub open spec fn decode_frames_spec(pieces: Seq<Seq<char>>, frame_bytes: nat) -> Result<
    Seq<Seq<u8>>,
    FrameCorruptKind,
>
    decreases pieces.len(),
{
    if pieces.len() == 0 {
        Ok(Seq::empty())
    } else {
        match decode_frame_spec(pieces[0], frame_bytes) {
            Err(k) => Err(k),
            Ok(p) => match decode_frames_spec(pieces.drop_first(), frame_bytes) {
                Err(k) => Err(k),
                Ok(rest) => Ok(seq![p] + rest),
            },
        }
    }
}

/// Every state's frames decoded in document order: each state's
/// transport value split on newlines, counted against `dirs * frames`,
/// and decoded; the first failure wins.
pub open spec fn decode_all_spec(
    states: Seq<IconStateView>,
    values: Seq<Seq<char>>,
    frame_bytes: nat,
) -> Result<Seq<Seq<u8>>, PackFailure>
    decreases states.len(),
{
    if states.len() == 0 {
        Ok(Seq::empty())
    } else {
        let pieces = split_on_spec(values[0], '\n');
        let expected = state_frame_count(states[0]);
        if pieces.len() != expected {
            Err(
                PackFailure::CountMismatch {
                    state: states[0].name,
                    expected,
                    actual: pieces.len() as int,
                },
            )
        } else {
            match decode_frames_spec(pieces, frame_bytes) {
                Err(k) => Err(PackFailure::Corrupt { kind: k }),
                Ok(ps) => match decode_all_spec(
                    states.drop_first(),
                    values.drop_first(),
                    frame_bytes,
                ) {
                    Err(f) => Err(f),
                    Ok(rest) => Ok(ps + rest),
                },
            }
        }
    }
}

/// The canvas after the given frames are painted at consecutive slots,
/// starting with slot `start`.
pub open spec fn paint_all_spec(
    cv: Seq<u8>,
    plan: CanvasPlan,
    frames: Seq<Seq<u8>>,
    start: int,
) -> Seq<u8>
    decreases frames.len(),
{
    if frames.len() == 0 {
        cv
    } else {
        let slot = slot_of(plan, start);
        paint_all_spec(
            blit_spec(
                cv,
                plan.width as int,
                slot.x as int,
                slot.y as int,
                plan.frame_width as int,
                plan.frame_height as int,
                frames[0],
            ),
            plan,
            frames.drop_first(),
            start + 1,
        )
    }
}

proof fn lemma_paint_all_push(
    cv: Seq<u8>,
    plan: CanvasPlan,
    frames: Seq<Seq<u8>>,
    p: Seq<u8>,
    start: int,
)
    ensures
        paint_all_spec(cv, plan, frames.push(p), start) == ({
            let slot = slot_of(plan, start + frames.len());
            blit_spec(
                paint_all_spec(cv, plan, frames, start),
                plan.width as int,
                slot.x as int,
                slot.y as int,
                plan.frame_width as int,
                plan.frame_height as int,
                p,
            )
        }),
    decreases frames.len(),
{
    let slot_new = slot_of(plan, start + frames.len());
    if frames.len() == 0 {
        assert(frames.push(p).drop_first() =~= Seq::<Seq<u8>>::empty());
        assert(frames.push(p)[0] == p);
        let cv1 = blit_spec(
            cv,
            plan.width as int,
            slot_new.x as int,
            slot_new.y as int,
            plan.frame_width as int,
            plan.frame_height as int,
            p,
        );
        assert(paint_all_spec(cv1, plan, frames.push(p).drop_first(), start + 1) == cv1);
        assert(paint_all_spec(cv, plan, frames.push(p), start) == cv1);
        assert(paint_all_spec(cv, plan, frames, start) == cv);
    } else {
        let slot0 = slot_of(plan, start);
        let cv1 = blit_spec(
            cv,
            plan.width as int,
            slot0.x as int,
            slot0.y as int,
            plan.frame_width as int,
            plan.frame_height as int,
            frames[0],
        );
        lemma_paint_all_push(cv1, plan, frames.drop_first(), p, start + 1);
        assert(frames.push(p).drop_first() =~= frames.drop_first().push(p));
        assert(frames.push(p)[0] == frames[0]);
        assert(paint_all_spec(cv, plan, frames.push(p), start) == paint_all_spec(
            cv1,
            plan,
            frames.drop_first().push(p),
            start + 1,
        ));
        assert(paint_all_spec(cv, plan, frames, start) == paint_all_spec(
            cv1,
            plan,
            frames.drop_first(),
            start + 1,
        ));
        assert(start + 1 + frames.drop_first().len() == start + frames.len());
    }
}

/// A frame rectangle already painted is untouched by the painting of
/// frames at later slots: the slots are pairwise disjoint.
proof fn lemma_paint_preserves_rect(
    cv: Seq<u8>,
    plan: CanvasPlan,
    frames: Seq<Seq<u8>>,
    start: int,
    m: int,
)
    requires
        plan_wf(plan),
        cv.len() == plan.width as int * plan.height as int * 4,
        0 <= m < start,
        start + frames.len() <= plan_capacity(plan),
    ensures
        paint_all_spec(cv, plan, frames, start).len() == cv.len(),
        extract_spec(
            paint_all_spec(cv, plan, frames, start),
            plan.width as int,
            slot_of(plan, m).x as int,
            slot_of(plan, m).y as int,
            plan.frame_width as int,
            plan.frame_height as int,
        ) == extract_spec(
            cv,
            plan.width as int,
            slot_of(plan, m).x as int,
            slot_of(plan, m).y as int,
            plan.frame_width as int,
            plan.frame_height as int,
        ),
    decreases frames.len(),
{
    let w = plan.width as int;
    let h = plan.height as int;
    let fw = plan.frame_width as int;
    let fh = plan.frame_height as int;
    let xm = slot_of(plan, m).x as int;
    let ym = slot_of(plan, m).y as int;
    crate::layout::lemma_slot_in_bounds(plan, m);
    if frames.len() > 0 {
        crate::layout::lemma_slot_in_bounds(plan, start);
        let s0 = slot_of(plan, start);
        let cv1 = blit_spec(cv, w, s0.x as int, s0.y as int, fw, fh, frames[0]);
        assert(cv1.len() == cv.len());
        assert forall|j: int|
            0 <= j < fw * fh * 4 implies extract_spec(cv1, w, xm, ym, fw, fh)[j]
            == extract_spec(cv, w, xm, ym, fw, fh)[j] by {
            crate::canvas::lemma_frame_byte_forward(w, h, xm, ym, fw, fh, j);
            let dst = crate::canvas::frame_byte_dst(w, xm, ym, fw, j);
            assert(crate::canvas::pix_index(w, xm + (j / 4) % fw, ym + (j / 4) / fw, j % 4)
                == dst);
            crate::layout::lemma_slots_disjoint(plan, m, start, dst);
            assert(cv1[dst] == cv[dst]);
        }
        assert(extract_spec(cv1, w, xm, ym, fw, fh) =~= extract_spec(cv, w, xm, ym, fw, fh));
        lemma_paint_preserves_rect(cv1, plan, frames.drop_first(), start + 1, m);
    }
}

/// Round-trip law of the whole sheet: after the given frames are
/// painted at consecutive planned slots, reading any of those slots
/// back yields exactly the frame that was painted there. The packer
/// and the unpacker share one slot sequence, so what one writes the
/// other reads.
pub proof fn lemma_paint_all_extract(
    cv: Seq<u8>,
    plan: CanvasPlan,
    frames: Seq<Seq<u8>>,
    start: int,
    m: int,
)
    requires
        plan_wf(plan),
        cv.len() == plan.width as int * plan.height as int * 4,
        0 <= start,
        start + frames.len() <= plan_capacity(plan),
        start <= m < start + frames.len(),
        forall|i: int|
            0 <= i < frames.len() ==> (#[trigger] frames[i]).len() == plan.frame_width as int
                * plan.frame_height as int * 4,
    ensures
        extract_spec(
            paint_all_spec(cv, plan, frames, start),
            plan.width as int,
            slot_of(plan, m).x as int,
            slot_of(plan, m).y as int,
            plan.frame_width as int,
            plan.frame_height as int,
        ) == frames[m - start],
    decreases frames.len(),
{
    let w = plan.width as int;
    let h = plan.height as int;
    let fw = plan.frame_width as int;
    let fh = plan.frame_height as int;
    crate::layout::lemma_slot_in_bounds(plan, start);
    let s0 = slot_of(plan, start);
    let cv1 = blit_spec(cv, w, s0.x as int, s0.y as int, fw, fh, frames[0]);
    assert(cv1.len() == cv.len());
    if m == start {
        lemma_paint_preserves_rect(cv1, plan, frames.drop_first(), start + 1, start);
        crate::canvas::lemma_extract_put_frame(
            cv,
            w,
            h,
            s0.x as int,
            s0.y as int,
            fw,
            fh,
            frames[0],
        );
    } else {
        lemma_paint_all_extract(cv1, plan, frames.drop_first(), start + 1, m);
        assert(frames.drop_first()[m - (start + 1)] == frames[m - start]);
    }
}

/// Decodes the newline-joined transport value of one state into its
/// frames, each checked against the frame byte size.
fn decode_state_frames(value: &str, frame_bytes: usize) -> (r: Result<Vec<Vec<u8>>, IconError>)
    ensures
        match r {
            Ok(v) => {
                &&& decode_frames_spec(split_on_spec(value@, '\n'), frame_bytes as nat) == Ok::<
                    Seq<Seq<u8>>,
                    FrameCorruptKind,
                >(byte_views(v@))
                &&& v@.len() == split_on_spec(value@, '\n').len()
                &&& forall|i: int| 0 <= i < v@.len() ==> (#[trigger] v@[i])@.len() == frame_bytes
            },
            Err(e) => e matches IconError::FrameCorrupt(k) && decode_frames_spec(
                split_on_spec(value@, '\n'),
                frame_bytes as nat,
            ) == Err::<Seq<Seq<u8>>, FrameCorruptKind>(k),
        },
{
    let pieces = split_on(value, '\n');
    let ghost pv = split_on_spec(value@, '\n');
    let mut out: Vec<Vec<u8>> = Vec::new();
    let mut f: usize = 0;
    proof {
        assert(byte_views(out@) =~= Seq::<Seq<u8>>::empty());
        assert(pv.skip(0) =~= pv);
        match decode_frames_spec(pv, frame_bytes as nat) {
            Ok(rest) => {
                assert(byte_views(out@) + rest =~= rest);
            },
            Err(_) => {},
        }
    }
    while f < pieces.len()
        invariant
            0 <= f <= pieces@.len(),
            pv == split_on_spec(value@, '\n'),
            str_views(pieces@) == pv,
            pv.len() == pieces@.len(),
            out@.len() == f,
            forall|i: int| 0 <= i < out@.len() ==> (#[trigger] out@[i])@.len() == frame_bytes,
            ({
                match decode_frames_spec(pv.skip(f as int), frame_bytes as nat) {
                    Ok(rest) => decode_frames_spec(pv, frame_bytes as nat) == Ok::<
                        Seq<Seq<u8>>,
                        FrameCorruptKind,
                    >(byte_views(out@) + rest),
                    Err(k) => decode_frames_spec(pv, frame_bytes as nat) == Err::<
                        Seq<Seq<u8>>,
                        FrameCorruptKind,
                    >(k),
                }
            }),
        decreases pieces@.len() - f,
    {
        proof {
            assert(pv.skip(f as int)[0] == pv[f as int]);
            assert(pv[f as int] == pieces@[f as int]@);
        }
        let p = match decode_frame(pieces[f].as_str(), frame_bytes) {
            Ok(p) => p,
            Err(e) => {
                proof {
                    assert(pv.skip(f as int).len() > 0);
                    assert(decode_frame_spec(pv.skip(f as int)[0], frame_bytes as nat) is Err);
                    assert(decode_frames_spec(pv.skip(f as int), frame_bytes as nat) == Err::<
                        Seq<Seq<u8>>,
                        FrameCorruptKind,
                    >(decode_frame_spec(pv.skip(f as int)[0], frame_bytes as nat)->Err_0));
                }
                return Err(e);
            },
        };
        let ghost old_out = out@;
        out.push(p);
        proof {
            assert(pv.skip(f as int).drop_first() =~= pv.skip(f + 1));
            assert(byte_views(out@) =~= byte_views(old_out).push(p@));
            match decode_frames_spec(pv.skip(f + 1), frame_bytes as nat) {
                Ok(rest) => {
                    assert(decode_frames_spec(pv.skip(f as int), frame_bytes as nat) == Ok::<
                        Seq<Seq<u8>>,
                        FrameCorruptKind,
                    >(seq![p@] + rest));
                    assert(byte_views(out@) + rest =~= byte_views(old_out) + (seq![p@]
                        + rest));
                },
                Err(_) => {},
            }
        }
        f = f + 1;
    }
    proof {
        assert(pv.skip(f as int).len() == 0);
        assert(decode_frames_spec(pv.skip(f as int), frame_bytes as nat) == Ok::<
            Seq<Seq<u8>>,
            FrameCorruptKind,
        >(Seq::<Seq<u8>>::empty()));
        assert(byte_views(out@) + Seq::<Seq<u8>>::empty() =~= byte_views(out@));
    }
    Ok(out)
}

/// Paints every frame of every state into the canvas, at the slots the
/// plan assigns, after validating counts and decoding everything.
/// A failing pack leaves the canvas untouched.
pub fn paint_frames(
    dmi: &DreamMakerIconMetadata,
    state_values: &Vec<String>,
    plan: &CanvasPlan,
    canvas: &mut Canvas,
) -> (r: Result<(), IconError>)
    requires
        canvas_wf(*old(canvas)),
        old(canvas).width == plan.width,
        old(canvas).height == plan.height,
        plan_wf(*plan),
        plan.frame_width == dmi.width,
        plan.frame_height == dmi.height,
        frames_needed_spec(dmi@.states) < plan_capacity(*plan),
        state_values@.len() == dmi.states@.len(),
    ensures
        ({
            let fb = (dmi.width as int * dmi.height as int * 4) as nat;
            let outcome = decode_all_spec(dmi@.states, str_views(state_values@), fb);
            match r {
                Ok(_) => {
                    &&& outcome is Ok
                    &&& canvas_wf(*final(canvas))
                    &&& final(canvas).width == old(canvas).width
                    &&& final(canvas).height == old(canvas).height
                    &&& final(canvas)@ == paint_all_spec(
                        old(canvas)@,
                        *plan,
                        outcome->Ok_0,
                        0,
                    )
                },
                Err(e) => {
                    &&& outcome matches Err(f) && pack_err_matches(e, f)
                    &&& *final(canvas) == *old(canvas)
                },
            }
        }),
{
    let ghost sv = dmi@.states;
    let ghost values = str_views(state_values@);
    let n_bytes: usize = canvas.pixels.len();
    proof {
        crate::layout::lemma_capacity_bound(*plan);
        vstd::arithmetic::div_mod::lemma_fundamental_div_mod(
            plan.width as int,
            plan.frame_width as int,
        );
        vstd::arithmetic::div_mod::lemma_fundamental_div_mod(
            plan.height as int,
            plan.frame_height as int,
        );
        assert(dmi.width as int <= plan.width as int) by (nonlinear_arith)
            requires
                plan.width as int == plan.frame_width as int * (plan.width as int
                    / plan.frame_width as int) + plan.width as int % plan.frame_width as int,
                plan.width as int % plan.frame_width as int >= 0,
                plan.width as int / plan.frame_width as int >= 1,
                dmi.width == plan.frame_width,
        ;
        assert(dmi.height as int <= plan.height as int) by (nonlinear_arith)
            requires
                plan.height as int == plan.frame_height as int * (plan.height as int
                    / plan.frame_height as int) + plan.height as int
                    % plan.frame_height as int,
                plan.height as int % plan.frame_height as int >= 0,
                plan.height as int / plan.frame_height as int >= 1,
                dmi.height == plan.frame_height,
        ;
        assert(dmi.width as int * dmi.height as int * 4 <= plan.width as int
            * plan.height as int * 4) by (nonlinear_arith)
            requires
                1 <= dmi.width as int <= plan.width as int,
                1 <= dmi.height as int <= plan.height as int,
        ;
        assert(old(canvas)@.len() <= usize::MAX) by {
            assert(n_bytes == canvas.pixels@.len());
        };
    }
    let frame_bytes: usize = (dmi.width as usize) * (dmi.height as usize) * 4;
    let ghost fb = frame_bytes as nat;

    // decode everything first
    let mut all_frames: Vec<Vec<u8>> = Vec::new();
    let mut k: usize = 0;
    proof {
        assert(byte_views(all_frames@) =~= Seq::<Seq<u8>>::empty());
        assert(sv.subrange(0, 0) =~= Seq::<IconStateView>::empty());
        assert(sv.skip(0) =~= sv);
        assert(values.skip(0) =~= values);
        match decode_all_spec(sv, values, fb) {
            Ok(rest) => {
                assert(byte_views(all_frames@) + rest =~= rest);
            },
            Err(_) => {},
        }
    }
    while k < dmi.states.len()
        invariant
            0 <= k <= dmi.states@.len(),
            sv == dmi@.states,
            values == str_views(state_values@),
            values.len() == sv.len(),
            sv.len() == dmi.states@.len(),
            state_values@.len() == dmi.states@.len(),
            fb == frame_bytes as nat,
            frame_bytes as int == dmi.width as int * dmi.height as int * 4,
            all_frames@.len() == frames_before_spec(sv, k as int),
            forall|i: int|
                0 <= i < all_frames@.len() ==> (#[trigger] all_frames@[i])@.len()
                    == frame_bytes,
            ({
                match decode_all_spec(sv.skip(k as int), values.skip(k as int), fb) {
                    Ok(rest) => decode_all_spec(sv, values, fb) == Ok::<
                        Seq<Seq<u8>>,
                        PackFailure,
                    >(byte_views(all_frames@) + rest),
                    Err(f) => decode_all_spec(sv, values, fb) == Err::<
                        Seq<Seq<u8>>,
                        PackFailure,
                    >(f),
                }
            }),
        decreases dmi.states@.len() - k,
    {
        let st = &dmi.states[k];
        proof {
            assert((st.dirs as u64) * (st.frames as u64) < 0x1_0000_0000_0000_0000)
                by (nonlinear_arith)
                requires
                    st.dirs <= 0xffff_ffffu64 && st.frames <= 0xffff_ffffu64,
            ;
            lemma_frames_needed_step(sv, k as int);
            assert(sv[k as int] == st@);
            assert(sv.skip(k as int)[0] == sv[k as int]);
            assert(values.skip(k as int)[0] == values[k as int]);
            assert(values[k as int] == state_values@[k as int]@);
        }
        let expected: u64 = (st.dirs as u64) * (st.frames as u64);
        let pieces_count: usize = {
            // the split count must match `dirs * frames` exactly
            let pieces = split_on(state_values[k].as_str(), '\n');
            pieces.len()
        };
        if pieces_count as u64 != expected {
            proof {
                crate::text::lemma_split_on_len(values[k as int], '\n');
                assert(split_on_spec(values[k as int], '\n').len() != state_frame_count(
                    sv[k as int],
                ));
                assert(decode_all_spec(sv.skip(k as int), values.skip(k as int), fb) == Err::<
                    Seq<Seq<u8>>,
                    PackFailure,
                >(
                    PackFailure::CountMismatch {
                        state: sv[k as int].name,
                        expected: state_frame_count(sv[k as int]),
                        actual: split_on_spec(values[k as int], '\n').len() as int,
                    },
                ));
            }
            return Err(
                IconError::FrameCountMismatch(
                    st.name.clone(),
                    expected,
                    pieces_count as u64,
                ),
            );
        }
        let chunk = match decode_state_frames(state_values[k].as_str(), frame_bytes) {
            Ok(v) => v,
            Err(e) => {
                proof {
                    assert(decode_frames_spec(
                        split_on_spec(values[k as int], '\n'),
                        fb,
                    ) is Err);
                    assert(decode_all_spec(sv.skip(k as int), values.skip(k as int), fb)
                        is Err);
                }
                return Err(e);
            },
        };
        let ghost old_frames = all_frames@;
        let mut chunk = chunk;
        all_frames.append(&mut chunk);
        proof {
            assert(sv.skip(k as int).drop_first() =~= sv.skip(k + 1));
            assert(values.skip(k as int).drop_first() =~= values.skip(k + 1));
            assert(byte_views(all_frames@) =~= byte_views(old_frames) + decode_frames_spec(
                split_on_spec(values[k as int], '\n'),
                fb,
            )->Ok_0);
            match decode_all_spec(sv.skip(k + 1), values.skip(k + 1), fb) {
                Ok(rest) => {
                    assert(byte_views(all_frames@) + rest =~= byte_views(old_frames) + (
                    decode_frames_spec(split_on_spec(values[k as int], '\n'), fb)->Ok_0
                        + rest));
                },
                Err(_) => {},
            }
        }
        k = k + 1;
    }
    proof {
        assert(sv.skip(k as int).len() == 0);
        assert(values.skip(k as int).len() == 0);
        assert(decode_all_spec(sv.skip(k as int), values.skip(k as int), fb) == Ok::<
            Seq<Seq<u8>>,
            PackFailure,
        >(Seq::<Seq<u8>>::empty()));
        assert(byte_views(all_frames@) + Seq::<Seq<u8>>::empty() =~= byte_views(all_frames@));
        assert(sv.subrange(0, sv.len() as int) =~= sv);
        lemma_frames_before_le(sv, sv.len() as int);
    }

    // everything decoded; paint
    let ghost cv0 = canvas@;
    let ghost frames_v = byte_views(all_frames@);
    let total: usize = all_frames.len();
    let mut idx: usize = 0;
    proof {
        assert(frames_v.subrange(0, 0) =~= Seq::<Seq<u8>>::empty());
    }
    while idx < total
        invariant
            0 <= idx <= total,
            total == all_frames@.len(),
            frames_v == byte_views(all_frames@),
            frames_v.len() == total,
            total == frames_needed_spec(sv),
            frames_needed_spec(sv) < plan_capacity(*plan),
            plan_wf(*plan),
            plan.frame_width == dmi.width,
            plan.frame_height == dmi.height,
            fb == frame_bytes as nat,
            frame_bytes as int == dmi.width as int * dmi.height as int * 4,
            forall|i: int|
                0 <= i < all_frames@.len() ==> (#[trigger] all_frames@[i])@.len()
                    == frame_bytes,
            canvas_wf(*canvas),
            canvas.width == plan.width,
            canvas.height == plan.height,
            cv0.len() == canvas@.len(),
            canvas@ == paint_all_spec(cv0, *plan, frames_v.subrange(0, idx as int), 0),
        decreases total - idx,
    {
        let slot = frame_slot(plan, idx as u64);
        canvas.put_frame(
            slot.x,
            slot.y,
            plan.frame_width,
            plan.frame_height,
            &all_frames[idx],
        );
        proof {
            lemma_paint_all_push(
                cv0,
                *plan,
                frames_v.subrange(0, idx as int),
                frames_v[idx as int],
                0,
            );
            assert(frames_v.subrange(0, idx as int).push(frames_v[idx as int])
                =~= frames_v.subrange(0, idx + 1));
        }
        idx = idx + 1;
    }
    proof {
        assert(frames_v.subrange(0, total as int) =~= frames_v);
    }
    Ok(())
}

/// A later-recursive filter of the container keys: those that are
/// neither reserved by the tool nor the name of a declared state.
pub open spec fn unused_keys_spec(keys: Seq<Seq<char>>, states: Seq<IconStateView>) -> Seq<
    Seq<char>,
>
    decreases keys.len(),
{
    if keys.len() == 0 {
        Seq::empty()
    } else {
        let rest = unused_keys_spec(keys.drop_last(), states);
        if is_reserved_key(keys.last()) || is_state_name(keys.last(), states) {
            rest
        } else {
            rest.push(keys.last())
        }
    }
}

/// A key the tool itself uses in the textual container.
pub open spec fn is_reserved_key(k: Seq<char>) -> bool {
    ||| k == DMI_METADATA_KEY@
    ||| k == DMI_PATH_KEY@
    ||| k == IMAGE_HEIGHT_KEY@
    ||| k == IMAGE_WIDTH_KEY@
}

/// A key that names a declared state.
pub open spec fn is_state_name(k: Seq<char>, states: Seq<IconStateView>) -> bool {
    exists|i: int| 0 <= i < states.len() && states[i].name == k
}

fn is_declared_state(dmi: &DreamMakerIconMetadata, key: &str) -> (b: bool)
    ensures
        b == is_state_name(key@, dmi@.states),
{
    let mut i: usize = 0;
    while i < dmi.states.len()
        invariant
            0 <= i <= dmi.states@.len(),
            forall|j: int| 0 <= j < i ==> dmi@.states[j].name != key@,
        decreases dmi.states@.len() - i,
    {
        if str_eq(dmi.states[i].name.as_str(), key) {
            proof {
                assert(dmi@.states[i as int].name == key@);
            }
            return true;
        }
        i = i + 1;
    }
    false
}

/// The container keys that neither the tool nor the metadata uses:
/// they name icon states that will not be painted.
pub fn unused_icon_states(keys: &Vec<String>, dmi: &DreamMakerIconMetadata) -> (r: Vec<String>)
    ensures
        str_views(r@) == unused_keys_spec(str_views(keys@), dmi@.states),
{
    let ghost kv = str_views(keys@);
    let mut r: Vec<String> = Vec::new();
    let mut i: usize = 0;
    proof {
        assert(kv.subrange(0, 0) =~= Seq::<Seq<char>>::empty());
        assert(str_views(r@) =~= unused_keys_spec(kv.subrange(0, 0), dmi@.states));
    }
    while i < keys.len()
        invariant
            0 <= i <= keys@.len(),
            kv == str_views(keys@),
            kv.len() == keys@.len(),
            str_views(r@) == unused_keys_spec(kv.subrange(0, i as int), dmi@.states),
        decreases keys@.len() - i,
    {
        let key = &keys[i];
        let reserved = str_eq(key.as_str(), DMI_METADATA_KEY) || str_eq(
            key.as_str(),
            DMI_PATH_KEY,
        ) || str_eq(key.as_str(), IMAGE_HEIGHT_KEY) || str_eq(key.as_str(), IMAGE_WIDTH_KEY);
        let declared = is_declared_state(dmi, key.as_str());
        let ghost old_r = r@;
        if !reserved && !declared {
            r.push(key.clone());
        }
        proof {
            assert(kv.subrange(0, i + 1).drop_last() =~= kv.subrange(0, i as int));
            assert(kv.subrange(0, i + 1).last() == kv[i as int]);
            assert(kv[i as int] == keys@[i as int]@);
            if !reserved && !declared {
                assert(str_views(r@) =~= str_views(old_r).push(keys@[i as int]@));
            }
            assert(str_views(r@) =~= unused_keys_spec(kv.subrange(0, i + 1), dmi@.states));
        }
        i = i + 1;
    }
    proof {
        assert(kv.subrange(0, kv.len() as int) =~= kv);
    }
    r
}

/// The output path of a compile pass: the given override, or the input
/// path with its final extension replaced by `dmi`; nothing when the
/// input path has no usable file name.
pub open spec fn compile_output_spec(p: Seq<char>) -> Option<Seq<char>> {
    let d = dir_len(p);
    let f = p.skip(d);
    if f.len() == 0 || f == "."@ || f == ".."@ {
        None
    } else {
        let ld = last_dot(f);
        let stem = if ld == -1 {
            f
        } else {
            f.subrange(0, ld)
        };
        Some(set_ext_spec(p.subrange(0, d) + stem, "dmi"@))
    }
}

/// Computes where the compiled image goes: the explicit output when
/// one was given, else the input path with a `dmi` extension.
pub fn get_output_path(output: &Option<String>, file: &str) -> (r: Option<String>)
    ensures
        match output {
            Some(o) => r matches Some(p) && p@ == o@,
            None => {
                match r {
                    Some(p) => compile_output_spec(file@) == Some(p@),
                    None => compile_output_spec(file@) is None,
                }
            },
        },
{
    match output {
        Some(o) => Some(o.clone()),
        None => {
            let n = file.unicode_len();
            let d = dir_len_of(file);
            let fname = file.substring_char(d, n);
            proof {
                assert(file@.subrange(d as int, n as int) =~= file@.skip(d as int));
            }
            if fname.unicode_len() == 0 || str_eq(fname, ".") || str_eq(fname, "..") {
                return None;
            }
            let ld = crate::text::last_dot_of(fname);
            let stem_end: usize = match ld {
                Some(i) => d + i,
                None => n,
            };
            let base = file.substring_char(0, stem_end);
            proof {
                let f = file@.skip(d as int);
                match ld {
                    Some(i) => {
                        assert(file@.subrange(0, d + i) =~= file@.subrange(0, d as int)
                            + f.subrange(0, i as int));
                    },
                    None => {
                        assert(file@.subrange(0, n as int) =~= file@.subrange(0, d as int)
                            + f);
                    },
                }
            }
            Some(set_extension(base, "dmi"))
        },
    }
}

} // verus!
