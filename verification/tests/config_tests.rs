use gds_text::config::{DesignRules, LayerConfig, DEFAULT_GRID_NM, MIN_GRID_NM};

#[test]
fn layer_defaults_are_met1() {
    let l = LayerConfig::default();
    assert_eq!((l.text_layer, l.text_datatype, l.fill_layer, l.fill_datatype), (68, 20, 68, 44));
}

#[test]
fn design_rule_defaults() {
    let r = DesignRules::default();
    assert_eq!(r.min_width_nm, 200);
    assert_eq!(r.min_spacing_nm, 200);
    assert_eq!(r.fill_to_metal_spacing_nm, 400);
}

#[test]
fn grid_constants() {
    assert_eq!(MIN_GRID_NM, 100);
    assert_eq!(DEFAULT_GRID_NM, 150);
    assert!(DEFAULT_GRID_NM >= MIN_GRID_NM);
}
