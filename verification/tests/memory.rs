use lib::mm::{ceil, floor, MemorySet, PERM_R, PERM_U};

#[test]
fn page_rounding() {
    assert_eq!(floor(0), 0);
    assert_eq!(floor(4095), 0);
    assert_eq!(floor(4096), 1);
    assert_eq!(ceil(0), 0);
    assert_eq!(ceil(1), 1);
    assert_eq!(ceil(4096), 1);
    assert_eq!(ceil(4097), 2);
    assert_eq!(ceil(usize::MAX), usize::MAX / 4096 + 1);
}

#[test]
fn map_then_unmap_restores_pages() {
    let mut m = MemorySet::new();
    assert_eq!(m.insert_framed_area(4096, 3 * 4096, PERM_U | PERM_R), Ok(()));
    assert_eq!(m.pages.len(), 2);
    assert_eq!(m.pages.get(&1), Some(&(PERM_U | PERM_R)));
    assert_eq!(m.pages.get(&2), Some(&(PERM_U | PERM_R)));
    assert_eq!(m.remove_framed_area(4096, 3 * 4096), Ok(()));
    assert!(m.pages.is_empty());
}

#[test]
fn mapping_a_mapped_page_fails_and_changes_nothing() {
    let mut m = MemorySet::new();
    assert_eq!(m.insert_framed_area(0, 2 * 4096, PERM_U), Ok(()));
    assert_eq!(m.insert_framed_area(4096, 4 * 4096, PERM_U), Err(()));
    assert_eq!(m.pages.len(), 2);
    assert!(!m.pages.contains_key(&2));
}

#[test]
fn unmapping_an_unmapped_page_fails_and_changes_nothing() {
    let mut m = MemorySet::new();
    assert_eq!(m.insert_framed_area(0, 4096, PERM_U), Ok(()));
    assert_eq!(m.remove_framed_area(0, 2 * 4096), Err(()));
    assert_eq!(m.pages.len(), 1);
    assert_eq!(m.remove_framed_area(0, 4096), Ok(()));
    assert_eq!(m.remove_framed_area(0, 4096), Err(()));
}

#[test]
fn area_ends_are_rounded_outward() {
    let mut m = MemorySet::new();
    assert_eq!(m.insert_framed_area(4100, 8193, PERM_U), Ok(()));
    let mut keys: Vec<usize> = m.pages.keys().copied().collect();
    keys.sort();
    assert_eq!(keys, vec![1, 2]);
    let empty = MemorySet::new().copy();
    assert!(empty.pages.is_empty());
    assert_eq!(m.copy().pages, m.pages);
}
