use janim_backend::gui::label::{
    LabelData, LabelGroupData, LabelItemData, LabelLayout, LabelNode, LABEL_DEFAULT_HEIGHT,
    LABEL_GROUP_HEADER_COLLAPSED_HEIGHT, LABEL_GROUP_HEADER_EXPANDED_HEIGHT,
};

fn layers_of(layout: &LabelLayout<&'static str, u8>, id: usize) -> Option<Vec<Vec<usize>>> {
    match &layout.node(id).data {
        LabelData::LabelGroup(d) => d.layers.clone(),
        LabelData::LabelItem(_) => panic!("not a group"),
    }
}

#[test]
fn create_label_uses_default_height() {
    let mut layout: LabelLayout<&'static str, u8> = LabelLayout::new();
    let a = layout.create_label("a", None);
    let b = layout.create_label("b", Some(1));
    assert_eq!((a, b), (0, 1));
    assert_eq!(layout.len(), 2);
    assert_eq!(layout.node_height(a), LABEL_DEFAULT_HEIGHT);
    assert_eq!(layout.node_height(b), 1);
    assert_eq!(layout.node(a).info, "a");
    assert!(layout.node(a).state.parent.is_none());
}

#[test]
fn group_stacks_overlapping_labels() {
    let mut layout: LabelLayout<&'static str, u8> = LabelLayout::new();
    let a = layout.create_label("a", None);
    let b = layout.create_label("b", None);
    let c = layout.create_label("c", None);
    let g = layout.create_group(
        "g",
        vec![a, b, c],
        vec![(0, 10), (5, 15), (12, 20)],
        false,
        false,
        7,
    );
    assert_eq!(g, 3);
    for x in [a, b, c] {
        assert_eq!(layout.node(x).state.parent, Some(g));
    }
    assert_eq!(layout.node(a).state.above_labels, vec![b]);
    assert!(layout.node(a).state.below_labels.is_empty());
    assert!(layout.node(b).state.above_labels.is_empty());
    assert_eq!(layout.node(b).state.below_labels, vec![a, c]);
    assert_eq!(layout.node(c).state.above_labels, vec![b]);
    assert!(layout.node(c).state.below_labels.is_empty());
    assert_eq!(layers_of(&layout, g), None);

    assert_eq!(layout.node_y(b), 0);
    assert_eq!(layout.node_y(a), 3);
    assert_eq!(layout.node_y(c), 3);
    assert_eq!(
        layout.node_height(g),
        LABEL_GROUP_HEADER_EXPANDED_HEIGHT + 6
    );
    assert_eq!(layout.node_y(g), 0);
}

#[test]
fn stored_offsets_are_read_back() {
    let mut layout: LabelLayout<&'static str, u8> = LabelLayout::new();
    let a = layout.create_label("a", Some(4));
    let b = layout.create_label("b", Some(5));
    let g = layout.create_group("g", vec![a, b], vec![(0, 10), (0, 10)], true, true, 0);
    assert_eq!(layout.node_y(a), 5);
    assert_eq!(layout.node_y(a), 5);
    assert_eq!(layout.node(a).state.y, Some(5));
    let h = layout.node_height(g);
    assert_eq!(h, LABEL_GROUP_HEADER_COLLAPSED_HEIGHT);
    assert_eq!(layout.node_height(g), h);
}

#[test]
fn collapsed_group_is_its_header_alone() {
    let mut layout: LabelLayout<&'static str, u8> = LabelLayout::new();
    let a = layout.create_label("a", None);
    let b = layout.create_label("b", None);
    let g = layout.create_group("g", vec![a, b], vec![(0, 10), (5, 15)], true, true, 0);
    assert_eq!(layout.node_height(g), LABEL_GROUP_HEADER_COLLAPSED_HEIGHT);
    assert_eq!(layout.try_node_height(g), Some(3));
    let c = layout.create_label("c", None);
    let d = layout.create_label("d", None);
    let e = layout.create_group("e", vec![c, d], vec![(0, 10), (5, 15)], false, true, 0);
    assert_eq!(
        layout.node_height(e),
        LABEL_GROUP_HEADER_EXPANDED_HEIGHT + 2 * LABEL_DEFAULT_HEIGHT
    );
}

#[test]
fn many_disjoint_labels_share_one_layer() {
    let mut layout: LabelLayout<&'static str, u8> = LabelLayout::new();
    let mut ids = Vec::new();
    let mut keys = Vec::new();
    for i in 0..33u64 {
        ids.push(layout.create_label("x", None));
        keys.push((i * 10, i * 10 + 10));
    }
    let g = layout.create_group("g", ids.clone(), keys, false, false, 0);
    assert_eq!(layers_of(&layout, g), Some(vec![ids.clone()]));
    for id in &ids {
        assert!(layout.node(*id).state.above_labels.is_empty());
        assert_eq!(layout.node_y(*id), 0);
    }
    assert_eq!(layout.node_height(g), LABEL_GROUP_HEADER_EXPANDED_HEIGHT + 3);
}

#[test]
fn many_overlapping_labels_get_a_layer_each() {
    let mut layout: LabelLayout<&'static str, u8> = LabelLayout::new();
    let mut ids = Vec::new();
    for _ in 0..33 {
        ids.push(layout.create_label("x", None));
    }
    let keys = vec![(0u64, 100u64); 33];
    let g = layout.create_group("g", ids.clone(), keys, false, false, 0);
    let layers = layers_of(&layout, g).unwrap();
    assert_eq!(layers.len(), 33);
    for (i, layer) in layers.iter().enumerate() {
        assert_eq!(layer, &vec![ids[i]]);
    }
    assert_eq!(layout.node(ids[0]).state.above_labels, ids[1..].to_vec());
    assert_eq!(layout.node_y(ids[32]), 0);
    assert_eq!(layout.node_y(ids[0]), 96);
    assert_eq!(layout.node_height(g), LABEL_GROUP_HEADER_EXPANDED_HEIGHT + 99);
}

#[test]
fn few_children_keep_no_layers() {
    let mut layout: LabelLayout<&'static str, u8> = LabelLayout::new();
    let mut ids = Vec::new();
    for _ in 0..32 {
        ids.push(layout.create_label("x", None));
    }
    let g = layout.create_group("g", ids, vec![(0u64, 1u64); 32], false, false, 0);
    assert_eq!(layers_of(&layout, g), None);
}

#[test]
fn layer_children_do_not_overlap() {
    let mut layout: LabelLayout<&'static str, u8> = LabelLayout::new();
    let mut ids = Vec::new();
    let mut keys = Vec::new();
    for i in 0..40u64 {
        ids.push(layout.create_label("x", None));
        keys.push((i * 3, i * 3 + 7));
    }
    let g = layout.create_group("g", ids.clone(), keys.clone(), false, false, 0);
    let layers = layers_of(&layout, g).unwrap();
    assert_eq!(layers.len(), 3);
    for layer in &layers {
        for w in layer.windows(2) {
            assert!(keys[w[0]].1 <= keys[w[1]].0);
        }
    }
    for id in &ids {
        let count: usize = layers.iter().map(|l| l.iter().filter(|x| *x == id).count()).sum();
        assert_eq!(count, 1);
    }
}

#[test]
fn nested_groups_add_up() {
    let mut layout: LabelLayout<&'static str, u8> = LabelLayout::new();
    let a = layout.create_label("a", Some(1));
    let inner = layout.create_group("inner", vec![a], vec![(0, 5)], false, true, 0);
    let b = layout.create_label("b", Some(2));
    let outer = layout.create_group("outer", vec![inner, b], vec![(0, 5), (0, 5)], false, false, 0);
    assert_eq!(layout.node_height(inner), LABEL_GROUP_HEADER_EXPANDED_HEIGHT + 1);
    assert_eq!(layout.node_y(inner), 2);
    assert_eq!(
        layout.node_height(outer),
        LABEL_GROUP_HEADER_EXPANDED_HEIGHT + 2 + LABEL_GROUP_HEADER_EXPANDED_HEIGHT + 1
    );
}

#[test]
fn header_height_follows_collapse() {
    let collapsed: LabelData<u8> = LabelGroupData::new(vec![], None, true, true, 0);
    let expanded: LabelData<u8> = LabelGroupData::new(vec![], None, false, true, 0);
    match (&collapsed, &expanded) {
        (LabelData::LabelGroup(c), LabelData::LabelGroup(e)) => {
            assert_eq!(c.header_height(), 3);
            assert_eq!(e.header_height(), 2);
        }
        _ => panic!("not groups"),
    }
    let item: LabelData<u8> = LabelItemData::new(6);
    let node = LabelNode::new("i", item);
    match node.data {
        LabelData::LabelItem(d) => assert_eq!(d.height, 6),
        LabelData::LabelGroup(_) => panic!("not an item"),
    }
    assert!(node.state.above_labels.is_empty());
}

fn stored_height_of(layout: &LabelLayout<&'static str, u8>, id: usize) -> Option<i32> {
    match &layout.node(id).data {
        LabelData::LabelGroup(d) => d.height,
        LabelData::LabelItem(_) => panic!("not a group"),
    }
}

#[test]
fn all_below_labels_follow_the_links_down() {
    let mut layout: LabelLayout<&'static str, u8> = LabelLayout::new();
    let x = layout.create_label("x", None);
    let y = layout.create_label("y", None);
    let z = layout.create_label("z", None);
    layout.create_group("g", vec![x, y, z], vec![(0, 10); 3], false, false, 0);
    assert_eq!(layout.node(z).state.below_labels, vec![x, y]);
    assert_eq!(layout.all_below_labels(z), vec![x, y]);
    assert_eq!(layout.node(z).state.all_below_labels, Some(vec![x, y]));
    assert_eq!(layout.node(y).state.all_below_labels, Some(vec![x]));
    assert_eq!(layout.all_below_labels(z), vec![x, y]);
    assert_eq!(layout.all_below_labels(x), Vec::<usize>::new());
}

fn two_stacked_groups() -> (LabelLayout<&'static str, u8>, usize, usize, usize) {
    let mut layout: LabelLayout<&'static str, u8> = LabelLayout::new();
    let a = layout.create_label("a", None);
    let g1 = layout.create_group("g1", vec![a], vec![(0, 10)], false, true, 0);
    let b = layout.create_label("b", None);
    let g2 = layout.create_group("g2", vec![b], vec![(0, 10)], false, true, 0);
    let outer = layout.create_group("outer", vec![g1, g2], vec![(0, 10), (0, 10)], false, false, 0);
    (layout, g1, g2, outer)
}

#[test]
fn refresh_forgets_heights_below_and_up() {
    let (mut layout, g1, g2, outer) = two_stacked_groups();
    assert_eq!(layout.node(g2).state.below_labels, vec![g1]);
    let h1 = layout.node_height(g1);
    let h2 = layout.node_height(g2);
    let ho = layout.node_height(outer);
    assert_eq!(h1, LABEL_GROUP_HEADER_EXPANDED_HEIGHT + LABEL_DEFAULT_HEIGHT);
    assert_eq!(ho, LABEL_GROUP_HEADER_EXPANDED_HEIGHT + h1 + h2);
    assert_eq!(stored_height_of(&layout, g1), Some(h1));
    assert_eq!(layout.node(g1).state.y, Some(h2));
    layout.mark_needs_refresh_height(g2);
    assert_eq!(layout.node(g1).state.y, None);
    assert_eq!(stored_height_of(&layout, g2), None);
    assert_eq!(stored_height_of(&layout, g1), None);
    assert_eq!(stored_height_of(&layout, outer), None);
    assert_eq!(layout.node_height(outer), ho);
}

#[test]
fn switch_collapse_flips_twice_and_refreshes() {
    let (mut layout, g1, g2, outer) = two_stacked_groups();
    layout.node_height(outer);
    layout.switch_collapse(g2);
    match &layout.node(g2).data {
        LabelData::LabelGroup(d) => {
            assert!(!d.collapsed);
            assert_eq!(d.height, None);
        }
        LabelData::LabelItem(_) => panic!("not a group"),
    }
    assert_eq!(stored_height_of(&layout, g1), None);
    assert_eq!(stored_height_of(&layout, outer), None);
}

#[test]
fn refresh_forgets_offsets_of_labels_below() {
    let mut layout: LabelLayout<&'static str, u8> = LabelLayout::new();
    let a = layout.create_label("a", None);
    let b = layout.create_label("b", None);
    let g = layout.create_group("g", vec![b], vec![(0, 10)], false, true, 0);
    let outer = layout.create_group("outer", vec![a, g], vec![(0, 10), (0, 10)], false, false, 0);
    assert_eq!(layout.node(g).state.below_labels, vec![a]);
    let ya = layout.node_y(a);
    let hg = layout.node_height(g);
    assert_eq!(ya, hg);
    layout.node_height(outer);
    assert_eq!(layout.node(a).state.y, Some(ya));
    layout.mark_needs_refresh_height(g);
    assert_eq!(layout.node(a).state.y, None);
    assert_eq!(stored_height_of(&layout, g), None);
    assert_eq!(stored_height_of(&layout, outer), None);
    assert_eq!(layout.node_y(a), ya);
}

#[test]
fn overlapping_siblings_get_rows_apart() {
    let mut layout: LabelLayout<&'static str, u8> = LabelLayout::new();
    let heights = [2, 1, 3, 1, 2, 4];
    let keys: Vec<(u64, u64)> = vec![(0, 8), (1, 3), (2, 9), (4, 6), (7, 12), (8, 10)];
    let ids: Vec<usize> = heights.iter().map(|h| layout.create_label("x", Some(*h))).collect();
    let g = layout.create_group("g", ids.clone(), keys.clone(), false, false, 0);
    let rows: Vec<(i32, i32)> = ids
        .iter()
        .map(|&x| {
            let y = layout.node_y(x);
            (y, y + layout.node_height(x))
        })
        .collect();
    for a in 0..ids.len() {
        for b in a + 1..ids.len() {
            if keys[b].0 < keys[a].1 {
                assert!(
                    rows[a].1 <= rows[b].0 || rows[b].1 <= rows[a].0,
                    "labels {} and {} share a row",
                    a,
                    b
                );
            }
        }
    }
    assert!(layout.node_height(g) >= LABEL_GROUP_HEADER_EXPANDED_HEIGHT + 4);
}

#[test]
fn offsets_that_overflow_are_refused() {
    let mut layout: LabelLayout<&'static str, u8> = LabelLayout::new();
    let a = layout.create_label("a", Some(1));
    let b = layout.create_label("b", Some(i32::MAX));
    let g = layout.create_group("g", vec![a, b], vec![(0, 10), (5, 15)], false, false, 0);
    assert_eq!(layout.try_node_y(b), Some(0));
    assert_eq!(layout.try_node_y(a), Some(i32::MAX));
    assert_eq!(layout.try_node_height(b), Some(i32::MAX));
    assert_eq!(layout.try_node_height(g), None);
}

#[test]
fn try_node_y_agrees_when_everything_fits() {
    let mut layout: LabelLayout<&'static str, u8> = LabelLayout::new();
    let a = layout.create_label("a", Some(2));
    let b = layout.create_label("b", Some(3));
    let g = layout.create_group("g", vec![a, b], vec![(0, 10), (5, 15)], false, false, 0);
    assert_eq!(layout.try_node_y(b), Some(0));
    assert_eq!(layout.try_node_y(a), Some(3));
    assert_eq!(layout.try_node_height(g), Some(LABEL_GROUP_HEADER_EXPANDED_HEIGHT + 5));
    assert_eq!(layout.node_y(a), 3);
}
