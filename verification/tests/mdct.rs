use tpt_dsp::mdct::MdctPlan;

#[test]
fn plan_rejects_unsupported_size() {
    assert!(MdctPlan::new(100).is_none());
    assert!(MdctPlan::new(1024).is_some());
}

#[test]
fn plan_reports_sizes() {
    for n in MdctPlan::SUPPORTED_SIZES {
        let plan = MdctPlan::new(n).unwrap();
        assert_eq!(plan.n(), n);
        assert_eq!(plan.window_len(), 2 * n);
    }
    assert!(MdctPlan::new(0).is_none());
    assert!(MdctPlan::new(8192).is_none());
    assert_eq!(MdctPlan::new(128).unwrap().window_len(), 256);
}
