use bevy::camera::visibility::RenderLayers;
use bevy_pf_vector::layers::LayerTable;

#[test]
fn the_default_mask_is_always_the_first() {
    let mut table = LayerTable::new();
    assert_eq!(table.intern(&Some(RenderLayers::layer(5))), 1);
    assert_eq!(table.intern(&None), 0);
    assert_eq!(table.intern(&Some(RenderLayers::layer(0))), 0);
}

#[test]
fn a_mask_is_entered_once() {
    let mut table = LayerTable::new();
    let first = table.intern(&Some(RenderLayers::layer(2)));
    let other = table.intern(&Some(RenderLayers::none().with(70)));
    assert_eq!(table.intern(&Some(RenderLayers::layer(2))), first);
    assert_ne!(first, other);
    table.clear();
    assert_eq!(table.intern(&Some(RenderLayers::none().with(70))), 1);
}

#[test]
fn content_shows_where_masks_share_a_layer() {
    let mut table = LayerTable::new();
    let low = table.intern(&Some(RenderLayers::layer(1)));
    let high = table.intern(&Some(RenderLayers::none().with(70)));
    let none = table.intern(&Some(RenderLayers::none()));
    let view = RenderLayers::layer(1).with(3);
    assert!(table.visible(low, &view));
    assert!(!table.visible(high, &view));
    assert!(table.visible(high, &RenderLayers::none().with(70)));
    assert!(!table.visible(0, &view));
    assert!(table.visible(0, &RenderLayers::default()));
    assert!(!table.visible(none, &RenderLayers::none()));
    // Ids outside the table show everywhere.
    assert!(table.visible(99, &view));
}
