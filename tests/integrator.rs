use rt::integrator::{next, shade, Next, Scatter, Shade, MAX_DEPTH};

#[test]
fn miss_is_sky_at_any_depth() {
    assert_eq!(shade(false, 0), Shade::Sky);
    assert_eq!(shade(false, MAX_DEPTH), Shade::Sky);
    assert_eq!(shade(false, u32::MAX), Shade::Sky);
}

#[test]
fn hit_within_limit_is_shaded() {
    assert_eq!(shade(true, 0), Shade::Material);
    assert_eq!(shade(true, 15), Shade::Material);
}

#[test]
fn hit_at_limit_is_black() {
    assert_eq!(MAX_DEPTH, 16);
    assert_eq!(shade(true, 16), Shade::Black);
    assert_eq!(shade(true, 40), Shade::Black);
}

#[test]
fn material_outcomes() {
    assert_eq!(next(3, Scatter::Absorbed), Next::Black);
    assert_eq!(next(3, Scatter::Emitted), Next::Emit);
    assert_eq!(next(3, Scatter::Bounced), Next::Trace(4));
    assert_eq!(next(15, Scatter::Bounced), Next::Trace(16));
}

#[test]
fn mirror_scene_path_terminates() {
    // Every surface reflects: the path goes on until the depth limit stops it.
    let mut depth = 0u32;
    let mut casts = 0u32;
    loop {
        casts += 1;
        match shade(true, depth) {
            Shade::Material => match next(depth, Scatter::Bounced) {
                Next::Trace(d) => depth = d,
                _ => unreachable!(),
            },
            Shade::Black => break,
            Shade::Sky => unreachable!(),
        }
    }
    assert_eq!(depth, 16);
    assert_eq!(casts, 17);
}
