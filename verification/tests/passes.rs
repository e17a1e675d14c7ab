use plank_sir::cache::Cached;
use plank_sir::passes::{
    parse_level, parse_passes, parse_passes_string, OptimizationLevel, OptimizationPass,
    O2_PASSES,
};

#[test]
fn optimization_levels_parse_case_insensitively() {
    assert_eq!("O2".parse::<OptimizationLevel>(), Ok(OptimizationLevel::O2));
    assert_eq!(parse_level("o0"), Ok(OptimizationLevel::O0));
    assert_eq!(parse_level("0"), Ok(OptimizationLevel::O0));
    assert_eq!(parse_level("2"), Ok(OptimizationLevel::O2));
    assert_eq!(
        parse_level("O3"),
        Err("invalid SIR optimization level 'O3', valid levels: O0, O2".to_string())
    );
    assert_eq!(OptimizationLevel::default(), OptimizationLevel::O0);
    assert_eq!(OptimizationLevel::O0.passes(), None);
    assert_eq!(OptimizationLevel::O2.passes(), Some("csludisumcsludisumcsud"));
}

#[test]
fn pass_characters() {
    assert_eq!(OptimizationPass::from_char('s'), Some(OptimizationPass::Sccp));
    assert_eq!(OptimizationPass::from_char('m'), Some(OptimizationPass::BasicBlockMerging));
    assert_eq!(OptimizationPass::from_char('x'), None);
    assert_eq!(parse_passes(O2_PASSES), Ok(O2_PASSES.to_string()));
    assert_eq!(parse_passes("csuimd"), Ok("csuimd".to_string()));
    assert_eq!(
        parse_passes("csxq"),
        Err("invalid optimization pass 'x', valid passes: s (SCCP), c (copy propagation), u (unused elimination), d (defragment), l (switch peephole), i (inlining), m (basic block merging)".to_string())
    );
    assert_eq!(parse_passes_string("csud"), Ok("csud".to_string()));
    assert_eq!(
        parse_passes_string("csi"),
        Err("invalid optimization pass 'i', valid passes: s (SCCP), c (copy propagation), u (unused elimination), d (defragment)".to_string())
    );
}

#[test]
fn cached_values_track_validity() {
    let mut cached = Cached::new(3u32);
    assert!(!cached.is_valid());
    assert_eq!(cached.get_if_valid(), None);
    cached.update(|old| old + 4);
    assert!(cached.is_valid());
    assert_eq!(cached.get_if_valid(), Some(&7));
    assert_eq!(*cached.get(), 7);
    cached.invalidate();
    assert_eq!(cached.get_if_valid(), None);
    cached.mark_valid();
    assert_eq!(cached.get_if_valid(), Some(&7));
}
