use minimax::strategies::iterative::{IterativeOptions, Replacement};
use minimax::strategies::ybw::YbwOptions;

#[test]
fn iterative_options_defaults() {
    let o = IterativeOptions::new();
    assert_eq!(o.table_byte_size(), 1_000_000);
    assert_eq!(o.strategy(), Replacement::TwoTier);
    assert!(o.null_window_search());
    assert_eq!(o.aspiration_window(), None);
    assert_eq!(o.step_increment(), 1);
    assert_eq!(o.max_quiescence_depth(), 0);
    let d = IterativeOptions::default();
    assert_eq!(d.table_byte_size(), 1_000_000);
    assert_eq!(d.strategy(), Replacement::TwoTier);
    assert!(d.null_window_search());
    assert_eq!(d.aspiration_window(), None);
    assert_eq!(d.step_increment(), 1);
    assert_eq!(d.max_quiescence_depth(), 0);
}

#[test]
fn iterative_options_builders_change_one_setting_each() {
    let o = IterativeOptions::new().with_table_byte_size(4096);
    assert_eq!(o.table_byte_size(), 4096);
    assert_eq!(o.strategy(), Replacement::TwoTier);
    let o = o.with_replacement_strategy(Replacement::Always);
    assert_eq!(o.strategy(), Replacement::Always);
    assert_eq!(o.table_byte_size(), 4096);
    let o = o.with_null_window_search(false);
    assert!(!o.null_window_search());
    let o = o.with_aspiration_window(50);
    assert_eq!(o.aspiration_window(), Some(50));
    let o = o.with_double_step_increment();
    assert_eq!(o.step_increment(), 2);
    let o = o.with_quiescence_search_depth(3);
    assert_eq!(o.max_quiescence_depth(), 3);
    assert_eq!(o.table_byte_size(), 4096);
    assert_eq!(o.strategy(), Replacement::Always);
    assert!(!o.null_window_search());
    assert_eq!(o.aspiration_window(), Some(50));
    assert_eq!(o.step_increment(), 2);
    let o = o.with_replacement_strategy(Replacement::DepthPreferred);
    assert_eq!(o.strategy(), Replacement::DepthPreferred);
}

#[test]
fn ybw_options_defaults() {
    let o = YbwOptions::new();
    assert_eq!(o.table_byte_size(), 32_000_000);
    assert!(o.null_window_search());
    assert_eq!(o.step_increment(), 1);
    assert_eq!(o.max_quiescence_depth(), 0);
    assert_eq!(o.serial_cutoff_depth(), 1);
    let d = YbwOptions::default();
    assert_eq!(d.table_byte_size(), 32_000_000);
    assert_eq!(d.serial_cutoff_depth(), 1);
}

#[test]
fn ybw_options_builders_change_one_setting_each() {
    let o = YbwOptions::new()
        .with_table_byte_size(4096)
        .with_null_window_search(false)
        .with_double_step_increment()
        .with_quiescence_search_depth(4)
        .with_serial_cutoff_depth(9);
    assert_eq!(o.table_byte_size(), 4096);
    assert!(!o.null_window_search());
    assert_eq!(o.step_increment(), 2);
    assert_eq!(o.max_quiescence_depth(), 4);
    assert_eq!(o.serial_cutoff_depth(), 9);
}
