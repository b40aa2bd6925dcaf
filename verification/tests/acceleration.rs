use liteexif::accel::{
    adapter_name, after_gpu_failure, blur_radius, blur_route, check_next, check_pattern,
    check_start, compare_outcome, gpu_acceleration_status, BlurRoute, CheckOutcome, CheckStep,
    GpuInit, GpuState, gpu_next, GpuEvent,
};
use liteexif::image::Image;

#[test]
fn acceleration_status_words() {
    assert_eq!(gpu_acceleration_status(GpuState::Pending, &GpuInit::Uninitialized), ("pending", None));
    assert_eq!(
        gpu_acceleration_status(GpuState::Validated, &GpuInit::Ready("GPU".to_owned())),
        ("validated", Some("GPU".to_owned()))
    );
    assert_eq!(gpu_acceleration_status(GpuState::Disabled, &GpuInit::Failed("x".to_owned())), ("disabled", None));
}

#[test]
fn adapter_name_only_once_ready() {
    assert_eq!(adapter_name(&GpuInit::Ready("RTX".to_owned())), Some("RTX".to_owned()));
    assert_eq!(adapter_name(&GpuInit::Failed("no device".to_owned())), None);
    assert_eq!(adapter_name(&GpuInit::Uninitialized), None);
}

#[test]
fn blur_routes_follow_size_radius_and_state() {
    assert_eq!(blur_route(GpuState::Validated, 512, 512, 0), BlurRoute::Unchanged);
    assert_eq!(blur_route(GpuState::Validated, 512, 512, -3), BlurRoute::Unchanged);
    assert_eq!(blur_route(GpuState::Validated, 0, 512, 5), BlurRoute::Unchanged);
    assert_eq!(blur_route(GpuState::Validated, 100, 100, 5), BlurRoute::Cpu);
    assert_eq!(blur_route(GpuState::Validated, 512, 256, 1), BlurRoute::Cpu);
    assert_eq!(blur_route(GpuState::Validated, 512, 256, 2), BlurRoute::Gpu);
    assert_eq!(blur_route(GpuState::Pending, 512, 256, 2), BlurRoute::ValidateFirst);
    assert_eq!(blur_route(GpuState::Disabled, 4000, 3000, 20), BlurRoute::Cpu);
    assert_eq!(blur_radius(-7), 0);
    assert_eq!(blur_radius(4_294_967_297), 1);
    assert_eq!(after_gpu_failure(GpuState::Validated), GpuState::Disabled);
}

#[test]
fn validation_stops_at_the_first_failure() {
    assert_eq!(check_start(), CheckStep::Compare(1));
    assert_eq!(check_next(0, CheckOutcome::Matched), CheckStep::Compare(3));
    assert_eq!(check_next(1, CheckOutcome::Matched), CheckStep::Compare(9));
    assert_eq!(check_next(2, CheckOutcome::Matched), CheckStep::Finish(GpuState::Validated));
    assert_eq!(check_next(1, CheckOutcome::Mismatched), CheckStep::Finish(GpuState::Disabled));
    assert_eq!(check_next(0, CheckOutcome::Failed), CheckStep::Finish(GpuState::Disabled));
}

#[test]
fn validation_pattern_and_comparison() {
    let pattern = check_pattern();
    assert_eq!((pattern.width, pattern.height), (37, 23));
    assert_eq!(pattern.get_pixel(0, 0), [0, 0, 0, 31]);
    assert_eq!(pattern.get_pixel(36, 22), [((36 * 17 + 22 * 29) % 256) as u8, ((36 * 36 + 22 * 11) % 256) as u8, ((36 * 7 + 22 * 22) % 256) as u8, ((36 * 13 + 22 * 19 + 31) % 256) as u8]);
    let same = pattern.duplicate();
    assert_eq!(compare_outcome(&pattern, &same), CheckOutcome::Matched);
    let mut other = pattern.duplicate();
    other.put_pixel(5, 5, [1, 2, 3, 4]);
    assert_eq!(compare_outcome(&pattern, &other), CheckOutcome::Mismatched);
    assert_eq!(compare_outcome(&pattern, &Image::new(23, 37)), CheckOutcome::Mismatched);
}

#[test]
fn a_refused_gpu_stays_refused() {
    let mut state = GpuState::Pending;
    state = gpu_next(state, GpuEvent::Checked(GpuState::Validated));
    assert_eq!(state, GpuState::Validated);
    state = gpu_next(state, GpuEvent::RuntimeFailure);
    assert_eq!(state, GpuState::Disabled);
    state = gpu_next(state, GpuEvent::Checked(GpuState::Validated));
    assert_eq!(state, GpuState::Disabled);
    assert_eq!(gpu_next(GpuState::Pending, GpuEvent::Checked(GpuState::Disabled)), GpuState::Disabled);
}
