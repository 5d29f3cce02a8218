//! Places along the Hilbert curve.
use geosetta::spatial::{hilbert_order, hilbert_place};

#[test]
fn the_curve_starts_at_the_origin_and_ends_on_the_x_axis() {
    assert_eq!(hilbert_place(0, 0), 0);
    assert_eq!(hilbert_place(0xffff, 0), 0xffff_ffff);
    assert_eq!(hilbert_place(0x8000, 0x8000), 0x8000_0000);
}

#[test]
fn the_first_places_turn_as_the_curve_does() {
    let mut cells: Vec<(u16, u16)> = (0..4).flat_map(|x| (0..4).map(move |y| (x, y))).collect();
    cells.sort_by_key(|c| hilbert_place(c.0, c.1));
    let places: Vec<u64> = cells.iter().map(|c| hilbert_place(c.0, c.1)).collect();
    assert_eq!(places, (0..16).collect::<Vec<u64>>());
    for pair in cells.windows(2) {
        let dx = pair[0].0.abs_diff(pair[1].0);
        let dy = pair[0].1.abs_diff(pair[1].1);
        assert_eq!(dx + dy, 1, "{pair:?}");
    }
}

#[test]
fn the_order_is_by_place_and_keeps_ties_in_turn() {
    assert_eq!(hilbert_order(&vec![5, 1, 5, 0, 1]), vec![3, 1, 4, 0, 2]);
    assert_eq!(hilbert_order(&vec![]), Vec::<usize>::new());
}
