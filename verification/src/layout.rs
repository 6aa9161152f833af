//! The canvas layout engine: decides the canvas dimensions and the
//! raster position of every frame. The same slot sequence is the
//! single source of truth for both the packing and the unpacking
//! direction, so the two can never drift apart.

use vstd::prelude::*;

use crate::dmi::{
    frames_before_spec, frames_needed_spec, lemma_frames_before_le, lemma_frames_needed_nonneg,
    lemma_frames_needed_step, state_frame_count, states_view, DreamMakerIconMetadata, IconState,
    IconStateView,
};
use crate::error::IconError;

verus! {

/// The top-left pixel coordinate of one frame inside the canvas.
#[derive(Clone, Copy, Debug, PartialEq, Eq, Structural)]
pub struct FrameSlot {
    pub x: u32,
    pub y: u32,
}

/// The decided canvas dimensions together with the frame size; every
/// frame position is derived from these four numbers alone.
#[derive(Clone, Copy, Debug, PartialEq, Eq, Structural)]
pub struct CanvasPlan {
    pub width: u32,
    pub height: u32,
    pub frame_width: u32,
    pub frame_height: u32,
}

/// The truncated square root.
pub open spec fn isqrt_spec(n: nat) -> nat
    decreases n,
{
    if n == 0 {
        0
    } else {
        let r = isqrt_spec((n - 1) as nat);
        if (r + 1) * (r + 1) <= n {
            r + 1
        } else {
            r
        }
    }
}

pub proof fn lemma_isqrt(n: nat)
    ensures
        isqrt_spec(n) * isqrt_spec(n) <= n,
        n < (isqrt_spec(n) + 1) * (isqrt_spec(n) + 1),
    decreases n,
{
    if n == 0 {
        assert(isqrt_spec(0) == 0);
        assert(n < (isqrt_spec(n) + 1) * (isqrt_spec(n) + 1)) by (nonlinear_arith)
            requires
                n == 0,
                isqrt_spec(n) == 0,
        ;
    } else {
        lemma_isqrt((n - 1) as nat);
        let r = isqrt_spec((n - 1) as nat);
        if (r + 1) * (r + 1) <= n {
            assert(isqrt_spec(n) == r + 1);
            assert(n < (isqrt_spec(n) + 1) * (isqrt_spec(n) + 1)) by (nonlinear_arith)
                requires
                    isqrt_spec(n) == r + 1,
                    (n - 1) < (r + 1) * (r + 1),
                    (r + 1) * (r + 1) <= n,
                    r >= 0,
            ;
        } else {
            assert(isqrt_spec(n) == r);
            assert(n < (isqrt_spec(n) + 1) * (isqrt_spec(n) + 1));
        }
    }
}

proof fn lemma_isqrt_unique(n: nat, r: nat)
    requires
        r * r <= n,
        n < (r + 1) * (r + 1),
    ensures
        r == isqrt_spec(n),
{
    lemma_isqrt(n);
    let s = isqrt_spec(n);
    if r < s {
        assert(false) by (nonlinear_arith)
            requires
                r < s && r * r <= n && n < (r + 1) * (r + 1) && s * s <= n,
        ;
    }
    if s < r {
        assert(false) by (nonlinear_arith)
            requires
                s < r && s * s <= n && n < (s + 1) * (s + 1) && r * r <= n,
        ;
    }
}

proof fn lemma_isqrt_at_least(n: nat, b: nat)
    requires
        b * b <= n,
    ensures
        isqrt_spec(n) >= b,
{
    lemma_isqrt(n);
    let s = isqrt_spec(n);
    if s < b {
        assert(false) by (nonlinear_arith)
            requires
                s < b && b * b <= n && n < (s + 1) * (s + 1),
        ;
    }
}

/// Relies on num_integer::Roots::sqrt: the truncated principal square
/// root of an unsigned integer.
#[verifier::external_body]
fn int_sqrt(n: u128) -> (r: u128)
    ensures
        (r * r) as int <= n as int,
        (n as int) < (r as int + 1) * (r as int + 1),
{
    num_integer::Roots::sqrt(&n)
}

/// How many frames a canvas of the given dimensions can hold.
pub open spec fn frames_available_spec(w: int, h: int, fw: int, fh: int) -> int {
    (w / fw) * (h / fh)
}

/// The grown canvas width: enough columns for roughly the square root
/// of the pixel area, plus one margin column of frames.
pub open spec fn grown_width_spec(needed: int, fw: int, fh: int) -> int {
    (isqrt_spec((fw * fh * needed) as nat) as int / fw + 1) * fw
}

/// The grown canvas height: enough rows for every frame at the grown
/// width, plus one margin row of frames.
pub open spec fn grown_height_spec(needed: int, fw: int, fh: int) -> int {
    let fpr = isqrt_spec((fw * fh * needed) as nat) as int / fw + 1;
    (needed / fpr + 1) * fh
}

/// The dimensions the layout decides on: the declared ones when they
/// leave room to spare, the grown ones as soon as the need reaches the
/// declared capacity.
pub open spec fn plan_dims_spec(needed: int, fw: int, fh: int, dw: int, dh: int) -> (int, int) {
    if needed >= frames_available_spec(dw, dh, fw, fh) {
        (grown_width_spec(needed, fw, fh), grown_height_spec(needed, fw, fh))
    } else {
        (dw, dh)
    }
}

/// The whole layout decision: the final dimensions, or nothing when
/// they exceed the configured maximum.
pub open spec fn plan_layout_spec(
    states: Seq<IconStateView>,
    fw: int,
    fh: int,
    dw: int,
    dh: int,
    max_w: int,
    max_h: int,
) -> Option<CanvasPlan> {
    let needed = frames_needed_spec(states);
    let dims = plan_dims_spec(needed, fw, fh, dw, dh);
    if dims.0 > max_w || dims.1 > max_h {
        None
    } else {
        Some(
            CanvasPlan {
                width: dims.0 as u32,
                height: dims.1 as u32,
                frame_width: fw as u32,
                frame_height: fh as u32,
            },
        )
    }
}

/// A usable plan: positive frame size and at least one frame per row
/// and per column.
pub open spec fn plan_wf(p: CanvasPlan) -> bool {
    &&& p.frame_width >= 1
    &&& p.frame_height >= 1
    &&& p.width as int / p.frame_width as int >= 1
    &&& p.height as int / p.frame_height as int >= 1
}

/// How many frames the planned canvas can hold.
pub open spec fn plan_capacity(p: CanvasPlan) -> int {
    frames_available_spec(p.width as int, p.height as int, p.frame_width as int, p.frame_height as int)
}

/// How many frame slots fit in one row of the planned canvas.
pub open spec fn per_row_spec(p: CanvasPlan) -> int {
    p.width as int / p.frame_width as int
}

/// The raster position of the frame with the given document-order
/// index: left to right, top to bottom.
pub open spec fn slot_of(p: CanvasPlan, i: int) -> FrameSlot {
    FrameSlot {
        x: ((i % per_row_spec(p)) * p.frame_width) as u32,
        y: ((i / per_row_spec(p)) * p.frame_height) as u32,
    }
}

/// The grown canvas always holds strictly more frames than needed.
proof fn lemma_grown_capacity(needed: int, fw: int, fh: int)
    requires
        needed >= 0,
        fw >= 1,
        fh >= 1,
    ensures
        frames_available_spec(
            grown_width_spec(needed, fw, fh),
            grown_height_spec(needed, fw, fh),
            fw,
            fh,
        ) > needed,
        grown_width_spec(needed, fw, fh) >= fw,
        grown_height_spec(needed, fw, fh) >= fh,
{
    let side = isqrt_spec((fw * fh * needed) as nat) as int;
    let fpr = side / fw + 1;
    let rows = needed / fpr + 1;
    let gw = grown_width_spec(needed, fw, fh);
    let gh = grown_height_spec(needed, fw, fh);
    assert(side >= 0);
    vstd::arithmetic::div_mod::lemma_div_pos_is_pos(side, fw);
    assert(fpr >= 1);
    vstd::arithmetic::div_mod::lemma_div_pos_is_pos(needed, fpr);
    assert(rows >= 1);
    assert(gw == fpr * fw && gw >= fw) by (nonlinear_arith)
        requires
            fpr >= 1 && fw >= 1 && gw == (side / fw + 1) * fw && fpr == side / fw + 1,
    ;
    assert(gh == rows * fh && gh >= fh) by (nonlinear_arith)
        requires
            rows >= 1 && fh >= 1 && gh == (needed / fpr + 1) * fh && rows == needed / fpr + 1,
    ;
    assert(gw / fw == fpr) by {
        vstd::arithmetic::div_mod::lemma_div_multiples_vanish(fpr, fw);
        assert(fw * fpr == fpr * fw) by (nonlinear_arith);
    };
    assert(gh / fh == rows) by {
        vstd::arithmetic::div_mod::lemma_div_multiples_vanish(rows, fh);
        assert(fh * rows == rows * fh) by (nonlinear_arith);
    };
    vstd::arithmetic::div_mod::lemma_fundamental_div_mod(needed, fpr);
    assert(fpr * rows > needed) by (nonlinear_arith)
        requires
            needed == fpr * (needed / fpr) + needed % fpr && 0 <= needed % fpr < fpr && rows
                == needed / fpr + 1,
    ;
}

proof fn lemma_needed_too_large(
    sv: Seq<IconStateView>,
    fw: int,
    fh: int,
    dw: int,
    dh: int,
    max_w: int,
    max_h: int,
)
    requires
        frames_needed_spec(sv) > 0xffff_ffff_ffff_ffff,
        1 <= fw <= u32::MAX,
        1 <= fh <= u32::MAX,
        0 <= dw <= u32::MAX,
        0 <= dh <= u32::MAX,
        0 <= max_w <= u32::MAX,
    ensures
        plan_layout_spec(sv, fw, fh, dw, dh, max_w, max_h) is None,
{
    let needed = frames_needed_spec(sv);
    let avail = frames_available_spec(dw, dh, fw, fh);
    vstd::arithmetic::div_mod::lemma_div_nonincreasing(dw, fw);
    vstd::arithmetic::div_mod::lemma_div_nonincreasing(dh, fh);
    vstd::arithmetic::div_mod::lemma_div_pos_is_pos(dw, fw);
    vstd::arithmetic::div_mod::lemma_div_pos_is_pos(dh, fh);
    assert(avail <= dw * dh) by (nonlinear_arith)
        requires
            0 <= dw / fw <= dw,
            0 <= dh / fh <= dh,
            avail == (dw / fw) * (dh / fh),
    ;
    assert(dw * dh < 0x1_0000_0000_0000_0000) by (nonlinear_arith)
        requires
            0 <= dw <= 0xffff_ffff,
            0 <= dh <= 0xffff_ffff,
    ;
    assert(needed >= avail);
    let pix = (fw * fh * needed) as nat;
    assert(fw * fh * needed >= needed) by (nonlinear_arith)
        requires
            fw >= 1,
            fh >= 1,
            needed >= 0,
    ;
    assert((0x1_0000_0000 as nat) * (0x1_0000_0000 as nat) <= pix);
    lemma_isqrt_at_least(pix, 0x1_0000_0000 as nat);
    let side = isqrt_spec(pix) as int;
    let gw = grown_width_spec(needed, fw, fh);
    vstd::arithmetic::div_mod::lemma_fundamental_div_mod(side, fw);
    assert(gw > side) by (nonlinear_arith)
        requires
            gw == (side / fw + 1) * fw,
            side == fw * (side / fw) + side % fw,
            0 <= side % fw < fw,
    ;
}

/// Planning the layout is a pure function: identical inputs always
/// decide identical plans.
pub proof fn lemma_plan_layout_deterministic(
    states: Seq<IconStateView>,
    fw: int,
    fh: int,
    dw: int,
    dh: int,
    max_w: int,
    max_h: int,
    first: Option<CanvasPlan>,
    second: Option<CanvasPlan>,
)
    requires
        first == plan_layout_spec(states, fw, fh, dw, dh, max_w, max_h),
        second == plan_layout_spec(states, fw, fh, dw, dh, max_w, max_h),
    ensures
        first == second,
{
}

/// Reaching the declared capacity triggers growth, and the grown
/// canvas always holds strictly more frames than needed.
pub proof fn lemma_growth_margin(
    states: Seq<IconStateView>,
    fw: int,
    fh: int,
    dw: int,
    dh: int,
    max_w: int,
    max_h: int,
    p: CanvasPlan,
)
    requires
        1 <= fw <= u32::MAX,
        1 <= fh <= u32::MAX,
        0 <= max_w <= u32::MAX,
        0 <= max_h <= u32::MAX,
        frames_needed_spec(states) >= frames_available_spec(dw, dh, fw, fh),
        plan_layout_spec(states, fw, fh, dw, dh, max_w, max_h) == Some(p),
    ensures
        p.width == grown_width_spec(frames_needed_spec(states), fw, fh),
        p.height == grown_height_spec(frames_needed_spec(states), fw, fh),
        plan_capacity(p) > frames_needed_spec(states),
{
    let needed = frames_needed_spec(states);
    lemma_frames_needed_nonneg(states);
    lemma_grown_capacity(needed, fw, fh);
}

/// Every plan the layout hands out holds strictly more frames than the
/// document needs.
pub proof fn lemma_plan_margin(
    states: Seq<IconStateView>,
    fw: int,
    fh: int,
    dw: int,
    dh: int,
    max_w: int,
    max_h: int,
    p: CanvasPlan,
)
    requires
        1 <= fw <= u32::MAX,
        1 <= fh <= u32::MAX,
        0 <= dw <= u32::MAX,
        0 <= dh <= u32::MAX,
        0 <= max_w <= u32::MAX,
        0 <= max_h <= u32::MAX,
        plan_layout_spec(states, fw, fh, dw, dh, max_w, max_h) == Some(p),
    ensures
        plan_wf(p),
        plan_capacity(p) > frames_needed_spec(states),
        p.frame_width == fw,
        p.frame_height == fh,
{
    let needed = frames_needed_spec(states);
    lemma_frames_needed_nonneg(states);
    let avail = frames_available_spec(dw, dh, fw, fh);
    if needed >= avail {
        lemma_grown_capacity(needed, fw, fh);
        let gw = grown_width_spec(needed, fw, fh);
        let gh = grown_height_spec(needed, fw, fh);
        vstd::arithmetic::div_mod::lemma_div_pos_is_pos(gw - fw, fw);
        vstd::arithmetic::div_mod::lemma_div_pos_is_pos(gh - fh, fh);
        assert(gw / fw >= 1 && gh / fh >= 1) by {
            vstd::arithmetic::div_mod::lemma_div_is_ordered(fw, gw, fw);
            vstd::arithmetic::div_mod::lemma_div_is_ordered(fh, gh, fh);
            assert(fw / fw == 1 && fh / fh == 1) by {
                vstd::arithmetic::div_mod::lemma_div_by_self(fw);
                vstd::arithmetic::div_mod::lemma_div_by_self(fh);
            };
        };
    } else {
        assert(needed < (dw / fw) * (dh / fh));
        vstd::arithmetic::div_mod::lemma_div_pos_is_pos(dw, fw);
        vstd::arithmetic::div_mod::lemma_div_pos_is_pos(dh, fh);
        assert(dw / fw >= 1 && dh / fh >= 1) by (nonlinear_arith)
            requires
                needed >= 0 && needed < (dw / fw) * (dh / fh) && dw / fw >= 0 && dh / fh >= 0,
        ;
    }
}

/// The planned canvas never holds more frames than fit in its area.
pub proof fn lemma_capacity_bound(p: CanvasPlan)
    requires
        plan_wf(p),
    ensures
        plan_capacity(p) <= p.width as int * p.height as int,
        plan_capacity(p) < 0x1_0000_0000_0000_0000,
{
    let w = p.width as int;
    let h = p.height as int;
    let fw = p.frame_width as int;
    let fh = p.frame_height as int;
    vstd::arithmetic::div_mod::lemma_div_nonincreasing(w, fw);
    vstd::arithmetic::div_mod::lemma_div_nonincreasing(h, fh);
    vstd::arithmetic::div_mod::lemma_div_pos_is_pos(w, fw);
    vstd::arithmetic::div_mod::lemma_div_pos_is_pos(h, fh);
    assert(plan_capacity(p) <= w * h) by (nonlinear_arith)
        requires
            0 <= w / fw <= w,
            0 <= h / fh <= h,
            plan_capacity(p) == (w / fw) * (h / fh),
    ;
    assert(w * h < 0x1_0000_0000_0000_0000) by (nonlinear_arith)
        requires
            0 <= w <= 0xffff_ffff,
            0 <= h <= 0xffff_ffff,
    ;
}

/// Decides the canvas dimensions for the document: keeps the declared
/// dimensions while they hold strictly more frames than needed, grows
/// them as soon as the need reaches the declared capacity, and fails
/// when the decided dimensions exceed the configured maximum.
pub fn plan_layout(
    states: &Vec<IconState>,
    frame_width: u32,
    frame_height: u32,
    declared_width: u32,
    declared_height: u32,
    max_width: u32,
    max_height: u32,
) -> (r: Result<CanvasPlan, IconError>)
    requires
        frame_width >= 1,
        frame_height >= 1,
    ensures
        ({
            let spec_plan = plan_layout_spec(
                states_view(states@),
                frame_width as int,
                frame_height as int,
                declared_width as int,
                declared_height as int,
                max_width as int,
                max_height as int,
            );
            match r {
                Ok(p) => {
                    &&& spec_plan == Some(p)
                    &&& plan_wf(p)
                    &&& plan_capacity(p) > frames_needed_spec(states_view(states@))
                    &&& p.frame_width == frame_width
                    &&& p.frame_height == frame_height
                },
                Err(e) => e matches IconError::CanvasTooLarge(_, _) && spec_plan is None,
            }
        }),
{
    let ghost sv = states_view(states@);
    let ghost fw_i = frame_width as int;
    let ghost fh_i = frame_height as int;

    let mut needed: u64 = 0;
    let mut k: usize = 0;
    proof {
        assert(sv.subrange(0, 0) =~= Seq::<IconStateView>::empty());
    }
    while k < states.len()
        invariant
            0 <= k <= states@.len(),
            sv == states_view(states@),
            sv.len() == states@.len(),
            needed == frames_before_spec(sv, k as int),
            frame_width >= 1,
            frame_height >= 1,
        decreases states@.len() - k,
    {
        let st = &states[k];
        proof {
            assert((st.dirs as u64) * (st.frames as u64) < 0x1_0000_0000_0000_0000)
                by (nonlinear_arith)
                requires
                    st.dirs <= 0xffff_ffffu64 && st.frames <= 0xffff_ffffu64,
            ;
            lemma_frames_needed_step(sv, k as int);
            assert(sv[k as int] == st@);
        }
        let prod: u64 = (st.dirs as u64) * (st.frames as u64);
        if needed > u64::MAX - prod {
            proof {
                lemma_frames_before_le(sv, k + 1);
                lemma_needed_too_large(
                    sv,
                    frame_width as int,
                    frame_height as int,
                    declared_width as int,
                    declared_height as int,
                    max_width as int,
                    max_height as int,
                );
            }
            return Err(IconError::CanvasTooLarge(u64::MAX, u64::MAX));
        }
        needed = needed + prod;
        k = k + 1;
    }
    proof {
        assert(sv.subrange(0, sv.len() as int) =~= sv);
        lemma_frames_needed_nonneg(sv);
    }

    let frames_per_row_declared: u32 = declared_width / frame_width;
    let rows_declared: u32 = declared_height / frame_height;
    proof {
        assert((frames_per_row_declared as u64) * (rows_declared as u64)
            < 0x1_0000_0000_0000_0000) by (nonlinear_arith)
            requires
                frames_per_row_declared <= 0xffff_ffffu64 && rows_declared <= 0xffff_ffffu64,
        ;
    }
    let available: u64 = (frames_per_row_declared as u64) * (rows_declared as u64);

    if needed >= available {
        proof {
            assert((frame_width as u128) * (frame_height as u128)
                <= 0xffff_fffe_0000_0001u128) by (nonlinear_arith)
                requires
                    frame_width as u128 <= 0xffff_ffffu128,
                    frame_height as u128 <= 0xffff_ffffu128,
            ;
        }
        let frame_area: u128 = (frame_width as u128) * (frame_height as u128);
        proof {
            assert(frame_area * (needed as u128) <= 0xffff_ffff_ffff_ffff_ffff_ffff_ffff_ffff)
                by (nonlinear_arith)
                requires
                    frame_area <= 0xffff_fffe_0000_0001u128,
                    needed as u128 <= 0xffff_ffff_ffff_ffffu128,
            ;
        }
        let pixels: u128 = frame_area * (needed as u128);
        let side: u128 = int_sqrt(pixels);
        proof {
            lemma_isqrt_unique(pixels as nat, side as nat);
            assert(side as int == isqrt_spec((fw_i * fh_i * (needed as int)) as nat) as int);
            assert(side < 0x1_0000_0000_0000_0000) by (nonlinear_arith)
                requires
                    (side as int) * (side as int) <= pixels as int,
                    pixels <= 0xffff_ffff_ffff_ffff_ffff_ffff_ffff_ffffu128,
                    side >= 0,
            ;
            vstd::arithmetic::div_mod::lemma_div_nonincreasing(side as int, frame_width as int);
            vstd::arithmetic::div_mod::lemma_div_pos_is_pos(side as int, frame_width as int);
        }
        let frames_per_row: u128 = side / (frame_width as u128) + 1;
        proof {
            assert(frames_per_row * (frame_width as u128)
                <= 0xffff_ffff_ffff_ffff_ffff_ffff_ffff_ffff) by (nonlinear_arith)
                requires
                    1 <= frames_per_row <= 0x1_0000_0000_0000_0000u128,
                    frame_width as u128 <= 0xffff_ffffu128,
            ;
        }
        let grown_width: u128 = frames_per_row * (frame_width as u128);
        let rows: u128 = (needed as u128) / frames_per_row + 1;
        proof {
            vstd::arithmetic::div_mod::lemma_div_nonincreasing(needed as int, frames_per_row as int);
            vstd::arithmetic::div_mod::lemma_div_pos_is_pos(needed as int, frames_per_row as int);
            assert(rows * (frame_height as u128) <= 0xffff_ffff_ffff_ffff_ffff_ffff_ffff_ffff)
                by (nonlinear_arith)
                requires
                    1 <= rows <= 0x1_0000_0000_0000_0000u128,
                    frame_height as u128 <= 0xffff_ffffu128,
            ;
        }
        let grown_height: u128 = rows * (frame_height as u128);
        proof {
            assert(grown_width as int == grown_width_spec(needed as int, fw_i, fh_i));
            assert(grown_height as int == grown_height_spec(needed as int, fw_i, fh_i));
        }
        if grown_width > max_width as u128 || grown_height > max_height as u128 {
            let width_report: u64 = if grown_width > u64::MAX as u128 {
                u64::MAX
            } else {
                grown_width as u64
            };
            let height_report: u64 = if grown_height > u64::MAX as u128 {
                u64::MAX
            } else {
                grown_height as u64
            };
            return Err(IconError::CanvasTooLarge(width_report, height_report));
        }
        let p = CanvasPlan {
            width: grown_width as u32,
            height: grown_height as u32,
            frame_width,
            frame_height,
        };
        proof {
            lemma_plan_margin(
                sv,
                fw_i,
                fh_i,
                declared_width as int,
                declared_height as int,
                max_width as int,
                max_height as int,
                p,
            );
        }
        Ok(p)
    } else {
        if declared_width > max_width || declared_height > max_height {
            return Err(IconError::CanvasTooLarge(declared_width as u64, declared_height as u64));
        }
        let p = CanvasPlan {
            width: declared_width,
            height: declared_height,
            frame_width,
            frame_height,
        };
        proof {
            lemma_plan_margin(
                sv,
                fw_i,
                fh_i,
                declared_width as int,
                declared_height as int,
                max_width as int,
                max_height as int,
                p,
            );
        }
        Ok(p)
    }
}

/// The slot of every in-capacity frame index lies fully inside the
/// planned canvas, at a grid-aligned position.
pub proof fn lemma_slot_in_bounds(p: CanvasPlan, i: int)
    requires
        plan_wf(p),
        0 <= i < plan_capacity(p),
    ensures
        slot_of(p, i).x as int == (i % per_row_spec(p)) * p.frame_width,
        slot_of(p, i).y as int == (i / per_row_spec(p)) * p.frame_height,
        slot_of(p, i).x + p.frame_width <= p.width,
        slot_of(p, i).y + p.frame_height <= p.height,
{
    let w = p.width as int;
    let h = p.height as int;
    let fw = p.frame_width as int;
    let fh = p.frame_height as int;
    let pr = per_row_spec(p);
    let rows_count = h / fh;
    vstd::arithmetic::div_mod::lemma_fundamental_div_mod(i, pr);
    assert(0 <= i % pr < pr);
    vstd::arithmetic::div_mod::lemma_fundamental_div_mod(w, fw);
    assert(pr * fw <= w) by (nonlinear_arith)
        requires
            w == fw * (w / fw) + w % fw,
            0 <= w % fw,
            pr == w / fw,
    ;
    assert((i % pr) * fw + fw <= pr * fw) by (nonlinear_arith)
        requires
            0 <= i % pr <= pr - 1,
            fw >= 1,
    ;
    assert(i / pr < rows_count) by (nonlinear_arith)
        requires
            i >= 0,
            pr >= 1,
            i < pr * rows_count,
            i == pr * (i / pr) + i % pr,
            0 <= i % pr < pr,
    ;
    vstd::arithmetic::div_mod::lemma_div_pos_is_pos(i, pr);
    vstd::arithmetic::div_mod::lemma_fundamental_div_mod(h, fh);
    assert(rows_count * fh <= h) by (nonlinear_arith)
        requires
            h == fh * (h / fh) + h % fh,
            0 <= h % fh,
            rows_count == h / fh,
    ;
    assert((i / pr) * fh + fh <= rows_count * fh) by (nonlinear_arith)
        requires
            0 <= i / pr <= rows_count - 1,
            fh >= 1,
    ;
    assert((i / pr) * fh >= 0) by (nonlinear_arith)
        requires
            i / pr >= 0,
            fh >= 1,
    ;
    assert((i % pr) * fw >= 0) by (nonlinear_arith)
        requires
            i % pr >= 0,
            fw >= 1,
    ;
}

/// A canvas byte inside one slot's rectangle names that slot's column
/// and row uniquely.
proof fn lemma_slot_col_row(p: CanvasPlan, m: int, i: int)
    requires
        plan_wf(p),
        0 <= m < plan_capacity(p),
        crate::canvas::in_rect(
            p.width as int,
            slot_of(p, m).x as int,
            slot_of(p, m).y as int,
            p.frame_width as int,
            p.frame_height as int,
            i,
        ),
    ensures
        ((i / 4) % (p.width as int)) / (p.frame_width as int) == m % per_row_spec(p),
        ((i / 4) / (p.width as int)) / (p.frame_height as int) == m / per_row_spec(p),
{
    lemma_slot_in_bounds(p, m);
    let w = p.width as int;
    let fw = p.frame_width as int;
    let fh = p.frame_height as int;
    let pr = per_row_spec(p);
    let px = (i / 4) % w;
    let py = (i / 4) / w;
    vstd::arithmetic::div_mod::lemma_fundamental_div_mod(m, pr);
    let dx = px - slot_of(p, m).x as int;
    let dy = py - slot_of(p, m).y as int;
    vstd::arithmetic::div_mod::lemma_fundamental_div_mod_converse_div(px, fw, m % pr, dx);
    vstd::arithmetic::div_mod::lemma_fundamental_div_mod_converse_div(py, fh, m / pr, dy);
}

/// Two different slots never share a canvas byte: the rectangles of
/// the planned layout are pairwise disjoint.
pub proof fn lemma_slots_disjoint(p: CanvasPlan, m: int, k: int, i: int)
    requires
        plan_wf(p),
        0 <= m < plan_capacity(p),
        0 <= k < plan_capacity(p),
        m != k,
        crate::canvas::in_rect(
            p.width as int,
            slot_of(p, m).x as int,
            slot_of(p, m).y as int,
            p.frame_width as int,
            p.frame_height as int,
            i,
        ),
    ensures
        !crate::canvas::in_rect(
            p.width as int,
            slot_of(p, k).x as int,
            slot_of(p, k).y as int,
            p.frame_width as int,
            p.frame_height as int,
            i,
        ),
{
    let pr = per_row_spec(p);
    if crate::canvas::in_rect(
        p.width as int,
        slot_of(p, k).x as int,
        slot_of(p, k).y as int,
        p.frame_width as int,
        p.frame_height as int,
        i,
    ) {
        lemma_slot_col_row(p, m, i);
        lemma_slot_col_row(p, k, i);
        vstd::arithmetic::div_mod::lemma_fundamental_div_mod(m, pr);
        vstd::arithmetic::div_mod::lemma_fundamental_div_mod(k, pr);
        assert(m == k) by (nonlinear_arith)
            requires
                m == pr * (m / pr) + m % pr,
                k == pr * (k / pr) + k % pr,
                m / pr == k / pr,
                m % pr == k % pr,
        ;
    }
}

/// The raster position of the frame with the given document-order
/// index, derived from the plan alone.
pub fn frame_slot(p: &CanvasPlan, i: u64) -> (s: FrameSlot)
    requires
        plan_wf(*p),
        i < plan_capacity(*p),
    ensures
        s == slot_of(*p, i as int),
        s.x + p.frame_width <= p.width,
        s.y + p.frame_height <= p.height,
{
    let per_row: u64 = (p.width / p.frame_width) as u64;
    let ghost w = p.width as int;
    let ghost h = p.height as int;
    let ghost fw = p.frame_width as int;
    let ghost fh = p.frame_height as int;
    let ghost rows_count = h / fh;
    proof {
        vstd::arithmetic::div_mod::lemma_fundamental_div_mod(i as int, per_row as int);
        assert(0 <= (i as int) % (per_row as int) < per_row as int);
        vstd::arithmetic::div_mod::lemma_fundamental_div_mod(w, fw);
        assert(per_row as int * fw <= w) by (nonlinear_arith)
            requires
                w == fw * (w / fw) + w % fw,
                0 <= w % fw,
                per_row as int == w / fw,
        ;
        assert(((i as int) % (per_row as int)) * fw + fw <= per_row as int * fw)
            by (nonlinear_arith)
            requires
                0 <= (i as int) % (per_row as int) <= per_row as int - 1,
                fw >= 1,
        ;
        assert((i as int) / (per_row as int) < rows_count) by (nonlinear_arith)
            requires
                i as int >= 0,
                per_row as int >= 1,
                (i as int) < (per_row as int) * rows_count,
                i as int == (per_row as int) * ((i as int) / (per_row as int)) + (i as int) % (
                per_row as int),
                0 <= (i as int) % (per_row as int) < per_row as int,
        ;
        vstd::arithmetic::div_mod::lemma_fundamental_div_mod(h, fh);
        assert(rows_count * fh <= h) by (nonlinear_arith)
            requires
                h == fh * (h / fh) + h % fh,
                0 <= h % fh,
                rows_count == h / fh,
        ;
        assert(((i as int) / (per_row as int)) * fh + fh <= rows_count * fh)
            by (nonlinear_arith)
            requires
                0 <= (i as int) / (per_row as int) <= rows_count - 1,
                fh >= 1,
        ;
    }
    let sx: u64 = (i % per_row) * (p.frame_width as u64);
    let sy: u64 = (i / per_row) * (p.frame_height as u64);
    FrameSlot { x: sx as u32, y: sy as u32 }
}

/// The slots of one state's frames, in document order. Their number is
/// always exactly `dirs * frames` for that state.
pub fn frame_slots_for(
    plan: &CanvasPlan,
    dmi: &DreamMakerIconMetadata,
    state_index: usize,
) -> (r: Vec<FrameSlot>)
    requires
        plan_wf(*plan),
        state_index < dmi.states@.len(),
        frames_needed_spec(dmi@.states) <= plan_capacity(*plan),
    ensures
        r@.len() == state_frame_count(dmi@.states[state_index as int]),
        forall|f: int|
            0 <= f < r@.len() ==> r@[f] == slot_of(
                *plan,
                frames_before_spec(dmi@.states, state_index as int) + f,
            ),
{
    let ghost sv = dmi@.states;
    proof {
        lemma_capacity_bound(*plan);
        assert(sv.subrange(0, 0) =~= Seq::<IconStateView>::empty());
    }
    let mut offset: u64 = 0;
    let mut j: usize = 0;
    while j < state_index
        invariant
            0 <= j <= state_index < dmi.states@.len(),
            sv == dmi@.states,
            offset == frames_before_spec(sv, j as int),
            frames_needed_spec(sv) <= plan_capacity(*plan),
            plan_capacity(*plan) < 0x1_0000_0000_0000_0000,
        decreases state_index - j,
    {
        let st = &dmi.states[j];
        proof {
            assert((st.dirs as u64) * (st.frames as u64) < 0x1_0000_0000_0000_0000)
                by (nonlinear_arith)
                requires
                    st.dirs <= 0xffff_ffffu64 && st.frames <= 0xffff_ffffu64,
            ;
            lemma_frames_needed_step(sv, j as int);
            assert(sv[j as int] == st@);
            lemma_frames_before_le(sv, j + 1);
        }
        let prod: u64 = (st.dirs as u64) * (st.frames as u64);
        offset = offset + prod;
        j = j + 1;
    }
    let st = &dmi.states[state_index];
    proof {
        assert((st.dirs as u64) * (st.frames as u64) < 0x1_0000_0000_0000_0000)
            by (nonlinear_arith)
            requires
                st.dirs <= 0xffff_ffffu64 && st.frames <= 0xffff_ffffu64,
        ;
        lemma_frames_needed_step(sv, state_index as int);
        assert(sv[state_index as int] == st@);
        lemma_frames_before_le(sv, state_index + 1);
    }
    let count: u64 = (st.dirs as u64) * (st.frames as u64);
    let mut r: Vec<FrameSlot> = Vec::new();
    let mut f: u64 = 0;
    while f < count
        invariant
            0 <= f <= count,
            plan_wf(*plan),
            sv == dmi@.states,
            offset == frames_before_spec(sv, state_index as int),
            count == state_frame_count(sv[state_index as int]),
            offset + count == frames_before_spec(sv, state_index as int + 1),
            frames_before_spec(sv, state_index as int + 1) <= frames_needed_spec(sv),
            frames_needed_spec(sv) <= plan_capacity(*plan),
            plan_capacity(*plan) < 0x1_0000_0000_0000_0000,
            r@.len() == f,
            forall|g: int|
                0 <= g < f ==> r@[g] == slot_of(*plan, offset as int + g),
        decreases count - f,
    {
        let s = frame_slot(plan, offset + f);
        r.push(s);
        f = f + 1;
    }
    r
}

} // verus!
