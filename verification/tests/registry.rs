use janim_backend::bitset::OffsetBitSet;
use janim_backend::registry::flags::FlagTable;
use janim_backend::registry::nodes::CutType;
use janim_backend::registry::{CycleError, Notice, RelationRegistry};

fn registry_with(n: usize) -> (RelationRegistry, Vec<usize>) {
    let mut reg = RelationRegistry::new();
    let mut ids = Vec::new();
    for _ in 0..n {
        ids.push(reg.create(|id| Ok::<usize, ()>(id)).unwrap());
    }
    (reg, ids)
}

fn sorted(v: Vec<usize>) -> Vec<usize> {
    let mut v = v;
    v.sort();
    v
}

#[test]
fn created_nodes_get_consecutive_ids() {
    let (_, ids) = registry_with(3);
    assert_eq!(ids, vec![0, 1, 2]);
}

#[test]
fn failed_create_uses_up_the_id() {
    let mut reg = RelationRegistry::new();
    let a = reg.create(|id| Ok::<usize, &str>(id)).unwrap();
    let err = reg.create(|_| Err::<usize, &str>("no handle"));
    assert_eq!(err, Err("no handle"));
    reg.cut_nodes_chunk(CutType::Discrete);
    let b = reg.create(|id| Ok::<usize, &str>(id)).unwrap();
    assert_eq!((a, b), (0, 2));
    let mut notices = Vec::new();
    reg.add_children_to(a, &vec![b], false, &mut notices).unwrap();
    assert_eq!(reg.children_of(a), vec![b]);
}

#[test]
fn add_links_both_ways_and_notifies() {
    let (mut reg, ids) = registry_with(3);
    let (a, b, c) = (ids[0], ids[1], ids[2]);
    let mut notices = Vec::new();
    reg.add_children_to(a, &vec![b, c], false, &mut notices).unwrap();
    assert_eq!(reg.children_of(a), vec![b, c]);
    assert_eq!(reg.parents_of(b), vec![a]);
    assert_eq!(reg.parents_of(c), vec![a]);
    assert_eq!(
        notices,
        vec![Notice::ParentsChanged(b), Notice::ParentsChanged(c), Notice::ChildrenChanged(a)]
    );
}

#[test]
fn add_skips_existing_children() {
    let (mut reg, ids) = registry_with(3);
    let (a, b, c) = (ids[0], ids[1], ids[2]);
    let mut notices = Vec::new();
    reg.add_children_to(a, &vec![b], false, &mut notices).unwrap();
    notices.clear();
    reg.add_children_to(a, &vec![c, b, c], false, &mut notices).unwrap();
    assert_eq!(reg.children_of(a), vec![b, c]);
    assert_eq!(reg.parents_of(b), vec![a]);
    assert_eq!(notices, vec![Notice::ParentsChanged(c), Notice::ChildrenChanged(a)]);
}

#[test]
fn prepend_keeps_given_order() {
    let (mut reg, ids) = registry_with(5);
    let (a, b, c, x, y) = (ids[0], ids[1], ids[2], ids[3], ids[4]);
    let mut notices = Vec::new();
    reg.add_children_to(a, &vec![b, c], false, &mut notices).unwrap();
    notices.clear();
    reg.add_children_to(a, &vec![x, y], true, &mut notices).unwrap();
    assert_eq!(reg.children_of(a), vec![x, y, b, c]);
    assert_eq!(
        notices,
        vec![Notice::ParentsChanged(y), Notice::ParentsChanged(x), Notice::ChildrenChanged(a)]
    );
}

#[test]
fn insert_places_children_at_index() {
    let (mut reg, ids) = registry_with(5);
    let (a, b, c, x, y) = (ids[0], ids[1], ids[2], ids[3], ids[4]);
    let mut notices = Vec::new();
    reg.add_children_to(a, &vec![b, c], false, &mut notices).unwrap();
    reg.insert_children_to(a, 1, &vec![x, y], &mut notices).unwrap();
    assert_eq!(reg.children_of(a), vec![b, x, y, c]);
    assert_eq!(reg.parents_of(y), vec![a]);
}

#[test]
fn insert_past_the_end_appends() {
    let (mut reg, ids) = registry_with(3);
    let (a, b, c) = (ids[0], ids[1], ids[2]);
    let mut notices = Vec::new();
    reg.add_children_to(a, &vec![b], false, &mut notices).unwrap();
    reg.insert_children_to(a, 10, &vec![c], &mut notices).unwrap();
    assert_eq!(reg.children_of(a), vec![b, c]);
}

#[test]
fn ancestor_and_descendant_sets() {
    let (mut reg, ids) = registry_with(5);
    let (a, b, c, d, e) = (ids[0], ids[1], ids[2], ids[3], ids[4]);
    let mut notices = Vec::new();
    reg.add_children_to(a, &vec![b, c], false, &mut notices).unwrap();
    reg.add_children_to(b, &vec![d], false, &mut notices).unwrap();
    reg.add_children_to(c, &vec![d, e], false, &mut notices).unwrap();
    assert_eq!(reg.descendant_set(a).unwrap().iter(), vec![b, c, d, e]);
    assert_eq!(reg.ancestor_set(d).unwrap().iter(), vec![a, b, c]);
    assert_eq!(reg.ancestor_set(a).unwrap().iter(), Vec::<usize>::new());
    assert_eq!(reg.descendant_set(e).unwrap().iter(), Vec::<usize>::new());
}

#[test]
fn dfs_lists_each_node_once_in_order() {
    let (mut reg, ids) = registry_with(5);
    let (a, b, c, d, e) = (ids[0], ids[1], ids[2], ids[3], ids[4]);
    let mut notices = Vec::new();
    reg.add_children_to(a, &vec![b, c], false, &mut notices).unwrap();
    reg.add_children_to(b, &vec![d], false, &mut notices).unwrap();
    reg.add_children_to(c, &vec![d, e], false, &mut notices).unwrap();
    assert_eq!(*reg.descendant_dfs(a).unwrap(), vec![b, d, c, e]);
    assert_eq!(*reg.ancestor_dfs(d).unwrap(), vec![b, a, c]);
}

#[test]
fn caches_follow_later_links() {
    let (mut reg, ids) = registry_with(4);
    let (a, b, c, d) = (ids[0], ids[1], ids[2], ids[3]);
    let mut notices = Vec::new();
    reg.add_children_to(a, &vec![b], false, &mut notices).unwrap();
    assert_eq!(reg.descendant_set(a).unwrap().iter(), vec![b]);
    assert_eq!(reg.ancestor_set(c).unwrap().iter(), Vec::<usize>::new());
    reg.add_children_to(b, &vec![c], false, &mut notices).unwrap();
    reg.add_children_to(c, &vec![d], false, &mut notices).unwrap();
    assert_eq!(reg.descendant_set(a).unwrap().iter(), vec![b, c, d]);
    assert_eq!(reg.ancestor_set(d).unwrap().iter(), vec![a, b, c]);
    assert_eq!(*reg.descendant_dfs(a).unwrap(), vec![b, c, d]);
}

#[test]
fn remove_unlinks_and_refreshes() {
    let (mut reg, ids) = registry_with(4);
    let (a, b, c, d) = (ids[0], ids[1], ids[2], ids[3]);
    let mut notices = Vec::new();
    reg.add_children_to(a, &vec![b, c], false, &mut notices).unwrap();
    reg.add_children_to(b, &vec![d], false, &mut notices).unwrap();
    assert_eq!(reg.descendant_set(a).unwrap().iter(), vec![b, c, d]);
    notices.clear();
    reg.remove_children_from(a, &vec![b, d], &mut notices).unwrap();
    assert_eq!(reg.children_of(a), vec![c]);
    assert_eq!(reg.parents_of(b), Vec::<usize>::new());
    assert_eq!(notices, vec![Notice::ParentsChanged(b), Notice::ChildrenChanged(a)]);
    assert_eq!(reg.descendant_set(a).unwrap().iter(), vec![c]);
    assert_eq!(reg.ancestor_set(d).unwrap().iter(), vec![b]);
}

#[test]
fn clear_children_empties_the_list() {
    let (mut reg, ids) = registry_with(3);
    let (a, b, c) = (ids[0], ids[1], ids[2]);
    let mut notices = Vec::new();
    reg.add_children_to(a, &vec![b, c], false, &mut notices).unwrap();
    notices.clear();
    reg.clear_children_of(a, &mut notices).unwrap();
    assert_eq!(reg.children_of(a), Vec::<usize>::new());
    assert_eq!(reg.parents_of(c), Vec::<usize>::new());
    assert_eq!(
        notices,
        vec![Notice::ParentsChanged(b), Notice::ParentsChanged(c), Notice::ChildrenChanged(a)]
    );
}

#[test]
fn clear_parents_leaves_every_parent() {
    let (mut reg, ids) = registry_with(3);
    let (a, b, c) = (ids[0], ids[1], ids[2]);
    let mut notices = Vec::new();
    reg.add_children_to(a, &vec![c], false, &mut notices).unwrap();
    reg.add_children_to(b, &vec![c], false, &mut notices).unwrap();
    assert_eq!(reg.parents_of(c), vec![a, b]);
    notices.clear();
    reg.clear_parents_of(c, &mut notices).unwrap();
    assert_eq!(reg.parents_of(c), Vec::<usize>::new());
    assert_eq!(reg.children_of(a), Vec::<usize>::new());
    assert_eq!(reg.children_of(b), Vec::<usize>::new());
    assert_eq!(
        notices,
        vec![
            Notice::ParentsChanged(c),
            Notice::ChildrenChanged(a),
            Notice::ParentsChanged(c),
            Notice::ChildrenChanged(b)
        ]
    );
    assert_eq!(reg.ancestor_set(c).unwrap().iter(), Vec::<usize>::new());
}

#[test]
fn closing_a_cycle_is_an_error() {
    let (mut reg, ids) = registry_with(3);
    let (a, b, c) = (ids[0], ids[1], ids[2]);
    let mut notices = Vec::new();
    reg.add_children_to(a, &vec![b], false, &mut notices).unwrap();
    reg.add_children_to(b, &vec![c], false, &mut notices).unwrap();
    assert_eq!(reg.add_children_to(c, &vec![a], false, &mut notices), Err(CycleError));
    assert_eq!(reg.children_of(c), vec![a]);
    assert_eq!(reg.parents_of(a), vec![c]);
}

#[test]
fn cycle_found_after_caches_were_filled_and_links_stay() {
    let (mut reg, ids) = registry_with(4);
    let (a, b, c, d) = (ids[0], ids[1], ids[2], ids[3]);
    let mut notices = Vec::new();
    reg.add_children_to(a, &vec![b], false, &mut notices).unwrap();
    reg.add_children_to(b, &vec![c], false, &mut notices).unwrap();
    assert_eq!(sorted(reg.descendant_set(a).unwrap().iter()), sorted(vec![b, c]));
    assert_eq!(sorted(reg.ancestor_set(c).unwrap().iter()), sorted(vec![a, b]));
    assert_eq!(reg.descendant_dfs(a).unwrap().to_vec(), vec![b, c]);
    assert_eq!(reg.add_children_to(c, &vec![d, a], false, &mut notices), Err(CycleError));
    assert_eq!(reg.children_of(c), vec![d, a]);
    assert_eq!(reg.parents_of(a), vec![c]);
    assert_eq!(reg.parents_of(d), vec![c]);
}

#[test]
fn self_link_is_a_cycle() {
    let (mut reg, ids) = registry_with(1);
    let mut notices = Vec::new();
    assert_eq!(reg.add_children_to(ids[0], &vec![ids[0]], false, &mut notices), Err(CycleError));
}

#[test]
fn children_changed_notifies() {
    let (mut reg, ids) = registry_with(2);
    let mut notices = Vec::new();
    reg.add_children_to(ids[0], &vec![ids[1]], false, &mut notices).unwrap();
    notices.clear();
    reg.children_changed(ids[0], &mut notices).unwrap();
    assert_eq!(notices, vec![Notice::ChildrenChanged(ids[0])]);
}

#[test]
fn indexize_key_is_stable() {
    let mut reg = RelationRegistry::new();
    assert_eq!(reg.indexize_key("draw"), 0);
    assert_eq!(reg.indexize_key("update"), 1);
    assert_eq!(reg.indexize_key("draw"), 0);
}

#[test]
fn flags_mark_read_and_reset() {
    let (mut reg, ids) = registry_with(3);
    let (a, b, c) = (ids[0], ids[1], ids[2]);
    let mut notices = Vec::new();
    reg.add_children_to(a, &vec![b], false, &mut notices).unwrap();
    reg.add_children_to(b, &vec![c], false, &mut notices).unwrap();
    let plain = reg.create_flag("points", false, false);
    let up = reg.create_flag("bbox", true, false);
    let down = reg.create_flag("color", false, true);
    // no set yet: marking makes it
    reg.node_mark_computed_for(b, 7, &plain);
    assert!(reg.node_get_computed_for(b, 7, &plain));
    assert!(!reg.node_get_computed_for(a, 7, &plain));
    reg.node_reset_computed_for(b, 7, &plain).unwrap();
    reg.node_mark_computed_for(b, 7, &plain);
    assert!(reg.node_get_computed_for(b, 7, &plain));
    reg.node_reset_computed_for(b, 7, &plain).unwrap();
    assert!(!reg.node_get_computed_for(b, 7, &plain));
    // resetting up clears the ancestors too
    reg.node_reset_computed_for(c, 7, &up).unwrap();
    for &n in &[a, b, c] {
        reg.node_mark_computed_for(n, 7, &up);
    }
    reg.node_reset_computed_for(b, 7, &up).unwrap();
    assert!(!reg.node_get_computed_for(a, 7, &up));
    assert!(!reg.node_get_computed_for(b, 7, &up));
    assert!(reg.node_get_computed_for(c, 7, &up));
    // resetting down clears the descendants
    reg.node_reset_computed_for(a, 7, &down).unwrap();
    for &n in &[a, b, c] {
        reg.node_mark_computed_for(n, 7, &down);
    }
    reg.node_reset_computed_for(b, 7, &down).unwrap();
    assert!(reg.node_get_computed_for(a, 7, &down));
    assert!(!reg.node_get_computed_for(b, 7, &down));
    assert!(!reg.node_get_computed_for(c, 7, &down));
    // another first part is another flag
    assert!(!reg.node_get_computed_for(a, 8, &down));
}

#[test]
fn cleanup_drops_dead_chunks() {
    let (mut reg, ids) = registry_with(2);
    reg.cut_nodes_chunk(CutType::Discrete);
    let x = reg.create(|id| Ok::<usize, ()>(id)).unwrap();
    let y = reg.create(|id| Ok::<usize, ()>(id)).unwrap();
    reg.cut_nodes_chunk(CutType::Continous);
    let z = reg.create(|id| Ok::<usize, ()>(id)).unwrap();
    let mut notices = Vec::new();
    reg.add_children_to(y, &vec![z], false, &mut notices).unwrap();
    let mut alive = OffsetBitSet::new();
    alive.insert(y);
    alive.insert(z);
    reg.cleanup(&alive);
    assert_eq!(ids, vec![0, 1]);
    assert_eq!(x, 2);
    assert_eq!(reg.children_of(y), vec![z]);
    assert_eq!(reg.ancestor_set(z).unwrap().iter(), vec![y]);
    let w = reg.create(|id| Ok::<usize, ()>(id)).unwrap();
    assert_eq!(w, 5);
}

#[test]
fn flag_table_cleanup_shrinks_each_set_to_its_members() {
    let mut t = FlagTable::new();
    t.touch((7, 1));
    t.mark((7, 1), 0);
    t.mark((7, 1), 200);
    t.reset_one((7, 1), 0);
    t.touch((8, 1));
    t.mark((8, 1), 130);
    t.reset_one((8, 1), 130);
    let before = t.summary();
    assert!(before.contains(&((7, 1), (0, 4))));
    assert!(before.contains(&((8, 1), (2, 3))));
    t.cleanup();
    let after = t.summary();
    assert_eq!(after.len(), 2);
    assert!(after.contains(&((7, 1), (3, 4))));
    assert!(after.contains(&((8, 1), (2, 2))));
    assert!(t.get((7, 1), 200));
    assert!(!t.get((7, 1), 0));
}

#[test]
fn cached_listing_keeps_depth_first_order() {
    let (mut reg, ids) = registry_with(5);
    let (a, b, c, d, e) = (ids[0], ids[1], ids[2], ids[3], ids[4]);
    let mut notices = Vec::new();
    reg.add_children_to(a, &vec![b, c], false, &mut notices).unwrap();
    reg.add_children_to(b, &vec![d], false, &mut notices).unwrap();
    reg.add_children_to(c, &vec![d, e], false, &mut notices).unwrap();
    assert_eq!(reg.descendant_dfs(c).unwrap().to_vec(), vec![d, e]);
    assert_eq!(reg.descendant_dfs(a).unwrap().to_vec(), vec![b, d, c, e]);
    assert_eq!(reg.descendant_dfs(a).unwrap().to_vec(), vec![b, d, c, e]);
    reg.add_children_to(a, &vec![e], true, &mut notices).unwrap();
    assert_eq!(reg.descendant_dfs(a).unwrap().to_vec(), vec![e, b, d, c]);
    assert_eq!(reg.ancestor_dfs(d).unwrap().to_vec(), vec![b, a, c]);
}
