use see_core::page::{page_slice, paginate};

#[test]
fn twenty_five_items_at_ten_per_page() {
    let items: Vec<u32> = (0..25).collect();
    let (page0, idx0, total0) = page_slice(&items, 10, 0);
    assert_eq!(total0, 3);
    assert_eq!(idx0, 0);
    assert_eq!(page0.len(), 10);
    assert_eq!(page0[0], 0);
    assert_eq!(page0[9], 9);

    let (page2, idx2, total2) = page_slice(&items, 10, 2);
    assert_eq!(total2, 3);
    assert_eq!(idx2, 2);
    assert_eq!(page2.len(), 5);
    assert_eq!(page2[0], 20);
    assert_eq!(page2[4], 24);
}

#[test]
fn out_of_range_request_clamps_to_the_last_page() {
    let items: Vec<u32> = (0..25).collect();
    let (page3, idx3, total3) = page_slice(&items, 10, 3);
    let (page2, idx2, _) = page_slice(&items, 10, 2);
    assert_eq!(total3, 3);
    assert_eq!(idx3, idx2);
    assert_eq!(page3, page2);
}

#[test]
fn empty_list_has_no_pages_whatever_is_requested() {
    let items: Vec<u32> = Vec::new();
    for requested in [0usize, 1, 7, 1000] {
        let (page, idx, total) = page_slice(&items, 10, requested);
        assert_eq!(total, 0);
        assert_eq!(idx, 0);
        assert_eq!(page.len(), 0);
    }
}

#[test]
fn exact_multiple_fills_the_last_page() {
    let (start, end, idx, total) = paginate(20, 10, 1);
    assert_eq!(total, 2);
    assert_eq!(idx, 1);
    assert_eq!(start, 10);
    assert_eq!(end, 20);
}

#[test]
fn single_short_page() {
    let (start, end, idx, total) = paginate(3, 10, 5);
    assert_eq!(total, 1);
    assert_eq!(idx, 0);
    assert_eq!(start, 0);
    assert_eq!(end, 3);
}

#[test]
fn repeating_the_effective_index_is_stable() {
    let (start, end, idx, total) = paginate(25, 10, 99);
    let (start2, end2, idx2, total2) = paginate(25, 10, idx);
    assert_eq!((start, end, idx, total), (start2, end2, idx2, total2));
}
