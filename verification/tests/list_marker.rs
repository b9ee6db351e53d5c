use gpui_gfm::list_marker::list_bullet;

#[test]
fn ordered_markers_count_from_start() {
    assert_eq!(list_bullet(true, 1, 0, None), "1.");
    assert_eq!(list_bullet(true, 1, 2, None), "3.");
    assert_eq!(list_bullet(true, 9, 1, Some(true)), "10.");
    assert_eq!(list_bullet(true, 0, 0, None), "0.");
    assert_eq!(list_bullet(true, 1234, 5678, None), "6912.");
}

#[test]
fn unordered_markers() {
    assert_eq!(list_bullet(false, 1, 0, Some(true)), "☑");
    assert_eq!(list_bullet(false, 1, 0, Some(false)), "☐");
    assert_eq!(list_bullet(false, 1, 3, None), "•");
}
