use pigment::panels::PanelVis;

#[test]
fn default_all_shown_and_reset() {
    let mut p = PanelVis::default();
    assert!(p.all_shown());
    p.tools = false;
    assert!(!p.all_shown());
    p.show_all();
    assert!(p.all_shown() && p.tool_options && p.properties);
}
