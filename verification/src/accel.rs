//! The rules of GPU blur acceleration: when a blur runs at all, when it may
//! go to the GPU, how the one-time comparison against the CPU result ends,
//! and how the state is reported.
use vstd::prelude::*;
use crate::image::{Image, ImageView, Rgba, from_fn, lemma_from_fn, lemma_same_pixels_eq};

verus! {

/// Whether GPU blur has been checked against the CPU blur.
#[derive(PartialEq, Eq, Clone, Copy, Debug, Structural)]
pub enum GpuState {
    /// Not checked yet.
    Pending,
    /// Checked: the GPU gave the CPU's bytes.
    Validated,
    /// Refused: the check failed or the GPU failed later.
    Disabled,
}

/// What is known of the GPU device.
#[derive(Debug)]
pub enum GpuInit {
    /// The device has not been asked for.
    Uninitialized,
    /// The device could not be set up, with the reason.
    Failed(String),
    /// The device is ready, with the adapter's name.
    Ready(String),
}

/// The word that reports a state.
pub open spec fn state_label(state: GpuState) -> Seq<char> {
    match state {
        GpuState::Validated => "validated"@,
        GpuState::Disabled => "disabled"@,
        GpuState::Pending => "pending"@,
    }
}

/// The adapter's name, once the device is ready.
pub fn adapter_name(init: &GpuInit) -> (r: Option<String>)
    ensures
        match init {
            GpuInit::Ready(name) => r == Some(*name),
            _ => r is None,
        },
{
    match init {
        GpuInit::Ready(name) => Some(name.clone()),
        _ => None,
    }
}

/// The reported acceleration status: the state's word, and the adapter's
/// name where the device came up.
pub fn gpu_acceleration_status(state: GpuState, init: &GpuInit) -> (r: (&'static str, Option<String>))
    ensures
        r.0@ == state_label(state),
        match init {
            GpuInit::Ready(name) => r.1 == Some(*name),
            _ => r.1 is None,
        },
{
    let label = match state {
        GpuState::Validated => "validated",
        GpuState::Disabled => "disabled",
        GpuState::Pending => "pending",
    };
    (label, adapter_name(init))
}

/// Where a blur of a given radius runs.
#[derive(PartialEq, Eq, Clone, Copy, Debug, Structural)]
pub enum BlurRoute {
    /// Nothing to blur: the image comes back unchanged.
    Unchanged,
    /// On the CPU.
    Cpu,
    /// On the validated GPU.
    Gpu,
    /// On the GPU once the one-time check passes, on the CPU otherwise.
    ValidateFirst,
}

/// The blur radius in pixels: negative radii count as 0 and the value is
/// cut to 32 bits.
pub open spec fn spec_blur_radius(radius: int) -> u32 {
    (if radius < 0 { 0 } else { radius }) as u32
}

/// The smallest pixel count worth sending to the GPU.
pub open spec fn gpu_min_pixels() -> int {
    131072int
}

/// Where a blur runs: nowhere for a zero radius or an empty image; on the
/// CPU for small images, radius 1, or a refused GPU; on the GPU otherwise,
/// after the check while it is pending.
pub open spec fn spec_blur_route(state: GpuState, width: int, height: int, radius: int) -> BlurRoute {
    let r = spec_blur_radius(radius);
    if r == 0 || width == 0 || height == 0 {
        BlurRoute::Unchanged
    } else if !(width * height >= gpu_min_pixels() && r >= 2) || state == GpuState::Disabled {
        BlurRoute::Cpu
    } else if state == GpuState::Validated {
        BlurRoute::Gpu
    } else {
        BlurRoute::ValidateFirst
    }
}

/// The blur radius in pixels for a requested radius.
pub fn blur_radius(radius: i64) -> (r: u32)
    ensures
        r == spec_blur_radius(radius as int),
{
    (if radius < 0 { 0 } else { radius }) as u32
}

/// Where a blur of `radius` over a `width` by `height` image runs.
pub fn blur_route(state: GpuState, width: u32, height: u32, radius: i64) -> (r: BlurRoute)
    ensures
        r == spec_blur_route(state, width as int, height as int, radius as int),
{
    let r = blur_radius(radius);
    if r == 0 || width == 0 || height == 0 {
        return BlurRoute::Unchanged;
    }
    proof {
        assert((width as u64) * (height as u64) <= u64::MAX) by (nonlinear_arith)
            requires
                width <= u32::MAX,
                height <= u32::MAX,
        ;
    }
    let pixels: u64 = (width as u64) * (height as u64);
    let eligible = pixels >= 128 * 1024 && r >= 2;
    if !eligible || state == GpuState::Disabled {
        BlurRoute::Cpu
    } else if state == GpuState::Validated {
        BlurRoute::Gpu
    } else {
        BlurRoute::ValidateFirst
    }
}

/// The state after a GPU blur failed at run time: refused from then on.
pub fn after_gpu_failure(state: GpuState) -> (r: GpuState)
    ensures
        r == GpuState::Disabled,
{
    GpuState::Disabled
}

/// What changes the acceleration state.
#[derive(PartialEq, Eq, Clone, Copy, Debug, Structural)]
pub enum GpuEvent {
    /// The one-time check ended with this verdict.
    Checked(GpuState),
    /// A GPU blur failed at run time.
    RuntimeFailure,
}

/// The state after an event: a verdict settles a pending state only; a
/// run-time failure refuses the GPU.
pub open spec fn spec_gpu_next(state: GpuState, event: GpuEvent) -> GpuState {
    match event {
        GpuEvent::Checked(verdict) => if state == GpuState::Pending { verdict } else { state },
        GpuEvent::RuntimeFailure => GpuState::Disabled,
    }
}

/// The state after an event: see `spec_gpu_next`.
pub fn gpu_next(state: GpuState, event: GpuEvent) -> (r: GpuState)
    ensures
        r == spec_gpu_next(state, event),
{
    match event {
        GpuEvent::Checked(verdict) => if state == GpuState::Pending { verdict } else { state },
        GpuEvent::RuntimeFailure => after_gpu_failure(state),
    }
}

/// The state after a run of events.
pub open spec fn gpu_after(state: GpuState, events: Seq<GpuEvent>) -> GpuState
    decreases events.len(),
{
    if events.len() == 0 {
        state
    } else {
        spec_gpu_next(gpu_after(state, events.drop_last()), events.last())
    }
}

/// Once refused, the GPU stays refused, whatever happens after; and it is
/// validated only by a check that ended validated.
pub proof fn law_gpu_refusal_is_final(events: Seq<GpuEvent>)
    ensures
        gpu_after(GpuState::Disabled, events) == GpuState::Disabled,
        gpu_after(GpuState::Pending, events) == GpuState::Validated ==> exists|i: int|
            0 <= i < events.len() && #[trigger] events[i] == GpuEvent::Checked(GpuState::Validated),
    decreases events.len(),
{
    if events.len() > 0 {
        law_gpu_refusal_is_final(events.drop_last());
        if gpu_after(GpuState::Pending, events) == GpuState::Validated {
            let prev = gpu_after(GpuState::Pending, events.drop_last());
            if prev == GpuState::Validated {
                let i = choose|i: int| 0 <= i < events.drop_last().len() && #[trigger] events.drop_last()[i]
                    == GpuEvent::Checked(GpuState::Validated);
                assert(events[i] == events.drop_last()[i]);
            } else {
                assert(events[events.len() - 1] == GpuEvent::Checked(GpuState::Validated));
            }
        }
    }
}

/// How one comparison of the check ended.
#[derive(PartialEq, Eq, Clone, Copy, Debug, Structural)]
pub enum CheckOutcome {
    /// The GPU gave the CPU's bytes.
    Matched,
    /// The GPU gave other bytes.
    Mismatched,
    /// The GPU could not run.
    Failed,
}

/// What the check does next.
#[derive(PartialEq, Eq, Clone, Copy, Debug, Structural)]
pub enum CheckStep {
    /// Compare the blurs at this radius.
    Compare(u32),
    /// Stop with this state.
    Finish(GpuState),
}

/// The radii the check compares, in order.
pub open spec fn check_radii() -> Seq<u32> {
    seq![1u32, 3u32, 9u32]
}

/// The first step of the check.
pub fn check_start() -> (r: CheckStep)
    ensures
        r == CheckStep::Compare(check_radii()[0]),
{
    CheckStep::Compare(1)
}

/// The step after comparison number `done` (counting from 0) ended with
/// `outcome`: a mismatch or a failure refuses the GPU at once; after the
/// last radius matched, the GPU is validated.
pub open spec fn spec_check_next(done: int, outcome: CheckOutcome) -> CheckStep {
    if outcome != CheckOutcome::Matched {
        CheckStep::Finish(GpuState::Disabled)
    } else if done + 1 < check_radii().len() {
        CheckStep::Compare(check_radii()[done + 1])
    } else {
        CheckStep::Finish(GpuState::Validated)
    }
}

/// The step after comparison number `done` ended with `outcome`: see
/// `spec_check_next`.
pub fn check_next(done: usize, outcome: CheckOutcome) -> (r: CheckStep)
    requires
        done < check_radii().len(),
    ensures
        r == spec_check_next(done as int, outcome),
{
    match outcome {
        CheckOutcome::Matched => {
            if done == 0 {
                CheckStep::Compare(3)
            } else if done == 1 {
                CheckStep::Compare(9)
            } else {
                CheckStep::Finish(GpuState::Validated)
            }
        },
        _ => CheckStep::Finish(GpuState::Disabled),
    }
}

/// The step of the check once the first `n` comparisons ended as
/// `outcomes` says; a finished check stays finished.
pub open spec fn check_after(outcomes: Seq<CheckOutcome>, n: int) -> CheckStep
    decreases n,
{
    if n <= 0 {
        CheckStep::Compare(check_radii()[0])
    } else {
        match check_after(outcomes, n - 1) {
            CheckStep::Finish(s) => CheckStep::Finish(s),
            CheckStep::Compare(_) => spec_check_next(n - 1, outcomes[n - 1]),
        }
    }
}

/// The check validates the GPU only when the comparison at every radius
/// matched; while it runs, it compares the next radius in turn; and it
/// always ends once every radius is compared.
pub proof fn law_check_validates_only_on_full_match(outcomes: Seq<CheckOutcome>, n: int)
    requires
        0 <= n <= outcomes.len(),
    ensures
        check_after(outcomes, n) == CheckStep::Finish(GpuState::Validated) ==> n >= check_radii().len()
            && forall|i: int| 0 <= i < check_radii().len() ==> outcomes[i] == CheckOutcome::Matched,
        check_after(outcomes, n) is Compare ==> n < check_radii().len()
            && check_after(outcomes, n) == CheckStep::Compare(check_radii()[n])
            && forall|i: int| 0 <= i < n ==> outcomes[i] == CheckOutcome::Matched,
        n >= check_radii().len() ==> check_after(outcomes, n) is Finish,
    decreases n,
{
    if n > 0 {
        law_check_validates_only_on_full_match(outcomes, n - 1);
        if check_after(outcomes, n - 1) is Finish {
            if n - 1 < check_radii().len() {
                assert(check_after(outcomes, n - 1) != CheckStep::Finish(GpuState::Validated));
            }
        }
    }
}

/// The GPU runs a blur only once it is validated, and the check runs only
/// while it is pending; a refused GPU leaves every blur to the CPU.
pub proof fn law_gpu_only_when_validated(state: GpuState, width: int, height: int, radius: int)
    ensures
        spec_blur_route(state, width, height, radius) == BlurRoute::Gpu ==> state == GpuState::Validated,
        spec_blur_route(state, width, height, radius) == BlurRoute::ValidateFirst ==> state == GpuState::Pending,
        state == GpuState::Disabled ==> spec_blur_route(state, width, height, radius) != BlurRoute::Gpu
            && spec_blur_route(state, width, height, radius) != BlurRoute::ValidateFirst,
{
}

/// Whether a comparison matched: the two blurs hold the same size and
/// bytes.
pub fn compare_outcome(gpu: &Image, cpu: &Image) -> (r: CheckOutcome)
    requires
        gpu.wf(),
        cpu.wf(),
    ensures
        r == CheckOutcome::Matched <==> gpu@ == cpu@,
        r != CheckOutcome::Failed,
{
    if gpu.width != cpu.width || gpu.height != cpu.height || gpu.pixels.len() != cpu.pixels.len() {
        return CheckOutcome::Mismatched;
    }
    let mut i: usize = 0;
    while i < gpu.pixels.len()
        invariant
            i <= gpu.pixels.len(),
            gpu.pixels.len() == cpu.pixels.len(),
            forall|k: int| 0 <= k < i ==> gpu.pixels@[k] == cpu.pixels@[k],
        decreases gpu.pixels.len() - i,
    {
        let a = gpu.pixels[i];
        let b = cpu.pixels[i];
        if a[0] != b[0] || a[1] != b[1] || a[2] != b[2] || a[3] != b[3] {
            proof {
                assert(gpu@.pixels[i as int] != cpu@.pixels[i as int]);
            }
            return CheckOutcome::Mismatched;
        }
        proof {
            assert(a =~= b);
        }
        i = i + 1;
    }
    proof {
        assert(gpu.pixels@ =~= cpu.pixels@);
    }
    CheckOutcome::Matched
}

/// The pixel of the check's test image at `(x, y)`.
pub open spec fn pattern_px(x: int, y: int) -> Rgba {
    [
        ((x * 17 + y * 29) % 256) as u8,
        ((x * x + y * 11) % 256) as u8,
        ((x * 7 + y * y) % 256) as u8,
        ((x * 13 + y * 19 + 31) % 256) as u8,
    ]
}

/// The check's 37 by 23 test image.
pub open spec fn spec_check_pattern() -> ImageView {
    from_fn(37, 23, |x: int, y: int| pattern_px(x, y))
}

/// The check's test image, whose channels vary with position so that any
/// misplaced sample shows.
pub fn check_pattern() -> (r: Image)
    ensures
        r.wf(),
        r@ == spec_check_pattern(),
{
    let mut img = Image::new(37, 23);
    let mut y: u32 = 0;
    while y < 23
        invariant
            img.wf(),
            img@.width == 37,
            img@.height == 23,
            y <= 23,
            forall|px: int, py: int| #[trigger] img@.contains(px, py) ==> img@.px(px, py) == if py < y {
                pattern_px(px, py)
            } else {
                [0u8, 0u8, 0u8, 0u8]
            },
        decreases 23 - y,
    {
        let mut x: u32 = 0;
        while x < 37
            invariant
                img.wf(),
                img@.width == 37,
                img@.height == 23,
                y < 23,
                x <= 37,
                forall|px: int, py: int| #[trigger] img@.contains(px, py) ==> img@.px(px, py) == if py < y
                    || (py == y && px < x) {
                    pattern_px(px, py)
                } else {
                    [0u8, 0u8, 0u8, 0u8]
                },
            decreases 37 - x,
        {
            proof {
                assert(x * x <= 36 * 36) by (nonlinear_arith)
                    requires
                        x < 37,
                ;
                assert(y * y <= 22 * 22) by (nonlinear_arith)
                    requires
                        y < 23,
                ;
            }
            let p: Rgba = [
                ((x * 17 + y * 29) % 256) as u8,
                ((x * x + y * 11) % 256) as u8,
                ((x * 7 + y * y) % 256) as u8,
                ((x * 13 + y * 19 + 31) % 256) as u8,
            ];
            proof {
                assert(p == pattern_px(x as int, y as int));
            }
            let ghost before = img@;
            img.put_pixel(x, y, p);
            proof {
                assert forall|px: int, py: int| #[trigger] img@.contains(px, py) implies img@.px(px, py) == if py < y
                    || (py == y && px < x + 1) {
                    pattern_px(px, py)
                } else {
                    [0u8, 0u8, 0u8, 0u8]
                } by {
                    assert(before.contains(px, py));
                }
            }
            x = x + 1;
        }
        y = y + 1;
    }
    proof {
        lemma_from_fn(37, 23, |x: int, y: int| pattern_px(x, y));
        lemma_same_pixels_eq(img@, spec_check_pattern());
    }
    img
}

} // verus!
