use tintbox::opt::OptimizationStrategy;

#[test]
fn default_strategy_is_accurate() {
    assert_eq!(OptimizationStrategy::default(), OptimizationStrategy::Accurate);
    assert_ne!(OptimizationStrategy::Lcms2Compat, OptimizationStrategy::AccurateFast);
}
