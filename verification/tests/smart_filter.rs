use pigment::scalar::Scalar;
use pigment::smart_filter::{SmartFilterKind, SmartFilterMeta, SmartFilterStack};

fn s(x: f32) -> Scalar {
    Scalar::from_bits(x.to_bits())
}

fn f(x: Scalar) -> f32 {
    f32::from_bits(x.bits)
}

fn blur(r: f32) -> SmartFilterKind {
    SmartFilterKind::GaussianBlur { radius: s(r) }
}

fn sharpen(a: f32) -> SmartFilterKind {
    SmartFilterKind::Sharpen { amount: s(a) }
}

// Filters are added in order.
#[test]
fn add_appends_in_order() {
    let mut st = SmartFilterStack::default();
    assert!(st.is_empty());
    st.add(blur(2.0));
    st.add(sharpen(1.0));
    st.add(SmartFilterKind::Posterize { levels: 4 });
    assert_eq!(st.filters.len(), 3);
    assert_eq!(st.filters[0].kind, blur(2.0));
    assert_eq!(st.filters[1].kind, sharpen(1.0));
    assert_eq!(st.filters[2].kind, SmartFilterKind::Posterize { levels: 4 });
}

// Removing drops the entry and moves the rest down.
#[test]
fn remove_drops_entry() {
    let mut st = SmartFilterStack::default();
    st.add(blur(1.0));
    st.add(sharpen(2.0));
    st.add(blur(3.0));
    st.remove(1);
    assert_eq!(st.filters.len(), 2);
    assert_eq!(st.filters[0].kind, blur(1.0));
    assert_eq!(st.filters[1].kind, blur(3.0));
    // Out-of-range remove is a no-op.
    st.remove(9);
    assert_eq!(st.filters.len(), 2);
}

// A disabled entry does not run but stays in the stack.
#[test]
fn toggle_excludes_from_apply_order_but_keeps_entry() {
    let mut st = SmartFilterStack::default();
    st.add(blur(2.0));
    st.add(SmartFilterKind::Posterize { levels: 4 });
    assert_eq!(st.enabled_passes().len(), 2);
    st.toggle(0);
    assert!(!st.filters[0].enabled);
    assert!(st.filters[1].enabled);
    let passes = st.enabled_passes();
    assert_eq!(passes.len(), 1);
    assert_eq!(passes[0].0, 28);
    assert_eq!(st.filters.len(), 2);
    // Toggling back restores it.
    st.toggle(0);
    assert_eq!(st.enabled_passes().len(), 2);
}

// Moving changes the order in which filters run, up to the ends.
#[test]
fn reorder_changes_apply_order() {
    let mut st = SmartFilterStack::default();
    st.add(blur(1.0));
    st.add(sharpen(1.0));
    st.add(SmartFilterKind::Posterize { levels: 4 });
    st.move_up(2);
    assert_eq!(st.filters[1].kind, SmartFilterKind::Posterize { levels: 4 });
    assert_eq!(st.filters[2].kind, sharpen(1.0));
    st.move_down(0);
    assert_eq!(st.filters[0].kind, SmartFilterKind::Posterize { levels: 4 });
    assert_eq!(st.filters[1].kind, blur(1.0));
    // At the ends: no panic, no change.
    st.move_up(0);
    st.move_down(2);
    assert_eq!(st.filters.len(), 3);
    let kinds: Vec<u32> = st.enabled_passes().iter().map(|p| p.0).collect();
    assert_eq!(kinds, vec![28, 1, 2]);
}

// Kinds, parameters and flags survive being saved.
#[test]
fn meta_round_trips() {
    let mut st = SmartFilterStack::default();
    st.add(blur(3.5));
    st.add(sharpen(2.25));
    st.add(SmartFilterKind::Posterize { levels: 6 });
    st.toggle(1);
    let meta = st.to_meta();
    assert_eq!(meta.len(), 3);
    let back = SmartFilterStack::from_meta(&meta);
    assert_eq!(back, st);
    assert!(!back.filters[1].enabled);
    match back.filters[0].kind {
        SmartFilterKind::GaussianBlur { radius } => assert!((f(radius) - 3.5).abs() < 1e-6),
        _ => panic!("expected blur"),
    }
    match back.filters[2].kind {
        SmartFilterKind::Posterize { levels } => assert_eq!(levels, 6),
        _ => panic!("expected posterize"),
    }
}

// A document without filters loads as an empty stack, which is not saved.
#[test]
fn legacy_no_stack_loads_empty() {
    let empty: Vec<SmartFilterMeta> = Vec::new();
    let st = SmartFilterStack::from_meta(&empty);
    assert!(st.is_empty());
    assert!(st.to_meta().is_empty());
}

#[test]
fn unknown_filter_loads_as_a_blur_without_radius() {
    let st = SmartFilterStack::from_meta(&[SmartFilterMeta {
        kind: 77,
        params: [s(5.0), s(0.0), s(0.0), s(0.0)],
        enabled: true,
    }]);
    assert_eq!(st.filters[0].kind, blur(0.0));
}

#[test]
fn kinds_have_their_passes_and_labels() {
    assert_eq!(blur(2.5).gpu_pass(), (1, s(2.5), s(0.0)));
    assert_eq!(sharpen(1.5).gpu_pass(), (2, s(0.0), s(1.5)));
    assert_eq!(SmartFilterKind::Posterize { levels: 400 }.gpu_pass(), (28, s(0.0), s(255.0)));
    assert_eq!(SmartFilterKind::Posterize { levels: 0 }.gpu_pass(), (28, s(0.0), s(2.0)));
    assert_eq!(blur(1.0).label(), "Gaussian Blur");
    assert_eq!(sharpen(1.0).label(), "Sharpen");
    assert_eq!(SmartFilterKind::Posterize { levels: 3 }.label(), "Posterize");
}

#[test]
fn an_entry_is_edited_in_place() {
    let mut st = SmartFilterStack::default();
    st.add(blur(1.0));
    st.toggle(0);
    st.edit(0, sharpen(3.0));
    assert_eq!(st.filters[0].kind, sharpen(3.0));
    assert!(!st.filters[0].enabled);
    let before = st.copied();
    st.edit(4, blur(9.0));
    assert_eq!(st, before);
}
