use rust_2048_solver::bots::mean_max::max_depth::MaxDepth;

#[test]
fn test_new() {
    assert_eq!(MaxDepth::new(0).bound().map(|b| b.get()), Some(1))
}

#[test]
fn test_order() {
    assert!(MaxDepth::new(0) < MaxDepth::Unlimited);
    assert!(MaxDepth::new(254) < MaxDepth::Unlimited);
}

#[test]
fn max_depth_255_is_unlimited() {
    assert_eq!(MaxDepth::new(255), MaxDepth::Unlimited);
    assert!(MaxDepth::new(255).is_unlimited());
    assert!(!MaxDepth::new(3).is_unlimited());
}

#[test]
fn max_depth_max_u8() {
    assert_eq!(MaxDepth::new(7).max_u8(), 7);
    assert_eq!(MaxDepth::Unlimited.max_u8(), 255);
}

#[test]
fn max_depth_add_and_sub() {
    assert_eq!(MaxDepth::new(3).add(4), MaxDepth::new(7));
    assert_eq!(MaxDepth::new(250).add(10), MaxDepth::Unlimited);
    assert_eq!(MaxDepth::Unlimited.add(1), MaxDepth::Unlimited);

    let mut depth = MaxDepth::new(1);
    depth.add_assign(2);
    assert_eq!(depth, MaxDepth::new(3));
}

#[test]
fn max_depth_sub() {
    assert_eq!(MaxDepth::new(3).sub(2), Some(MaxDepth::new(1)));
    assert_eq!(MaxDepth::new(3).sub(3), Some(MaxDepth::new(0)));
    assert_eq!(MaxDepth::new(1).sub(2), None);
    assert_eq!(MaxDepth::Unlimited.sub(5), Some(MaxDepth::Unlimited));
}

#[test]
fn max_depth_round_trip() {
    for v in 0..=255u8 {
        let m = MaxDepth::new(v);
        assert_eq!(m.max_u8(), v);
        assert_eq!(MaxDepth::new(m.max_u8()), m);
    }
    assert_eq!(MaxDepth::new(MaxDepth::Unlimited.max_u8()), MaxDepth::Unlimited);
}

#[test]
fn max_depth_default_is_unlimited() {
    assert_eq!(MaxDepth::default(), MaxDepth::Unlimited);
}

#[test]
fn max_depth_as_text() {
    assert_eq!(MaxDepth::new(0).text(), "0");
    assert_eq!(MaxDepth::new(7).text(), "7");
    assert_eq!(MaxDepth::new(37).text(), "37");
    assert_eq!(MaxDepth::new(254).text(), "254");
    assert_eq!(MaxDepth::Unlimited.text(), "∞");
}
