use geist::edit::EditStore;
use geist::mcworld::load_mcworlds_in_dir;
use geist::types::Block;

fn b(id: u16) -> Block {
    Block { id, state: 0 }
}

#[test]
fn get_returns_what_set_stored() {
    let mut e = EditStore::new(16, 64, 16);
    assert_eq!(e.get(3, 4, 5), None);
    e.set(3, 4, 5, b(7));
    e.set(-1, 0, -17, b(8));
    assert_eq!(e.get(3, 4, 5), Some(b(7)));
    assert_eq!(e.get(-1, 0, -17), Some(b(8)));
    assert_eq!(e.get(3, 5, 5), None);
    e.set(3, 4, 5, b(9));
    assert_eq!(e.get(3, 4, 5), Some(b(9)));
}

#[test]
fn snapshots_group_edits_by_chunk() {
    let mut e = EditStore::new(16, 64, 16);
    e.set(0, 1, 0, b(1));
    e.set(15, 1, 15, b(2));
    e.set(16, 1, 0, b(3));
    e.set(-1, 1, -1, b(4));
    e.set(0, 1, 0, b(5));
    let mut c0 = e.snapshot_for_chunk(0, 0);
    c0.sort_by_key(|(p, _)| *p);
    assert_eq!(c0, vec![((0, 1, 0), b(5)), ((15, 1, 15), b(2))]);
    assert_eq!(e.snapshot_for_chunk(1, 0), vec![((16, 1, 0), b(3))]);
    assert_eq!(e.snapshot_for_chunk(-1, -1), vec![((-1, 1, -1), b(4))]);
    assert!(e.snapshot_for_chunk(5, 5).is_empty());
    let mut region = e.snapshot_for_region(0, 0, 1);
    region.sort_by_key(|(p, _)| *p);
    assert_eq!(region.len(), 4);
    assert_eq!(e.snapshot_for_region(0, 0, 0).len(), 2);
    assert!(e.snapshot_for_region(0, 0, -1).is_empty());
}

#[test]
fn affected_chunks_follow_edges_and_corners() {
    let e = EditStore::new(16, 64, 16);
    assert_eq!(e.get_affected_chunks(5, 5), vec![(0, 0)]);
    assert_eq!(e.get_affected_chunks(0, 5), vec![(0, 0), (-1, 0)]);
    assert_eq!(e.get_affected_chunks(15, 5), vec![(0, 0), (1, 0)]);
    assert_eq!(e.get_affected_chunks(0, 0), vec![(0, 0), (-1, 0), (0, -1), (-1, -1)]);
    assert_eq!(e.get_affected_chunks(-1, 31), vec![(-1, 1), (0, 1), (-1, 2), (0, 2)]);
}

#[test]
fn bump_marks_affected_chunks_for_rebuild() {
    let mut e = EditStore::new(16, 64, 16);
    assert_eq!(e.get_rev(0, 0), 0);
    assert!(!e.needs_rebuild(0, 0));
    let s1 = e.bump_region_around(0, 0);
    assert_eq!(s1, 1);
    for (cx, cz) in e.get_affected_chunks(0, 0) {
        assert_eq!(e.get_rev(cx, cz), 1);
        assert!(e.needs_rebuild(cx, cz));
    }
    assert_eq!(e.get_rev(1, 1), 0);
    let s2 = e.bump_region_around(5, 5);
    assert_eq!(s2, 2);
    assert_eq!(e.get_rev(0, 0), 2);
    assert_eq!(e.get_rev(-1, 0), 1);
}

#[test]
fn mark_built_keeps_newest_and_clears_rebuild() {
    let mut e = EditStore::new(8, 8, 8);
    let s = e.bump_region_around(3, 3);
    assert!(e.needs_rebuild(0, 0));
    e.mark_built(0, 0, s);
    assert_eq!(e.get_built_rev(0, 0), s);
    assert!(!e.needs_rebuild(0, 0));
    e.mark_built(0, 0, 0);
    assert_eq!(e.get_built_rev(0, 0), s);
    let s2 = e.bump_region_around(3, 3);
    assert!(e.needs_rebuild(0, 0));
    e.mark_built(0, 0, s2 + 10);
    assert_eq!(e.get_built_rev(0, 0), s2 + 10);
    assert!(!e.needs_rebuild(0, 0));
    assert_eq!(e.get_built_rev(1, 0), 0);
}

#[test]
fn mcworld_import_is_unavailable() {
    let mut e = EditStore::new(16, 64, 16);
    e.set(1, 2, 3, b(4));
    let r = load_mcworlds_in_dir("worlds", 0, &mut e);
    assert_eq!(r, Err("mcworld support not enabled; recompile with --features mcworld".to_string()));
    assert_eq!(e.get(1, 2, 3), Some(b(4)));
}

#[test]
fn region_snapshot_runs_row_by_row() {
    let mut e = EditStore::new(16, 64, 16);
    e.set(2, 1, 2, b(1)); // chunk (0, 0)
    e.set(-3, 1, 2, b(2)); // chunk (-1, 0)
    e.set(17, 1, -5, b(3)); // chunk (1, -1)
    e.set(1, 1, -5, b(4)); // chunk (0, -1)
    e.set(40, 1, 40, b(5)); // chunk (2, 2), outside
    let region = e.snapshot_for_region(0, 0, 1);
    assert_eq!(
        region,
        vec![((1, 1, -5), b(4)), ((17, 1, -5), b(3)), ((-3, 1, 2), b(2)), ((2, 1, 2), b(1))]
    );
}
