use sequences::minmax::{Max, Min};

#[test]
fn running_extremes() {
    let mut max = Max::new();
    let mut min = Min::new();
    assert_eq!(None, max.get_max());
    assert_eq!(None, min.get_min());
    for v in [5usize, 2, 9, 2] {
        max.update(v);
        min.update(v);
    }
    assert_eq!(Some(9), max.get_max());
    assert_eq!(Some(2), min.get_min());
    assert_eq!(Some(3), Max::with_initial(3u8).get_max());
    assert_eq!(Some(3), Min::with_initial(3u8).get_min());
}

#[test]
fn merging_and_slices() {
    let mut max = Max::with_initial(4i32);
    max.merge(Max::from_slice(&[1, 7, -3]));
    assert_eq!(Some(7), max.get_max());
    let mut min = Min::with_initial(4i32);
    min.merge(Min::new());
    assert_eq!(Some(4), min.get_min());
    assert_eq!(Some(-3), Min::from_slice(&[1, 7, -3]).get_min());
    assert_eq!(None, Max::<u8>::from_slice(&[]).get_max());
}

#[test]
fn extremes_fall_back_to_the_bound() {
    let mut m = sequences::minmax::Max::<u8>::new();
    assert_eq!(0, m.get_max_extreme(u8::MIN));
    m.update(7);
    assert_eq!(7, m.get_max_extreme(u8::MIN));
    let mut n = sequences::minmax::Min::<u8>::new();
    assert_eq!(255, n.get_min_extreme(u8::MAX));
    n.update(7);
    assert_eq!(7, n.get_min_extreme(u8::MAX));
}

#[test]
fn extremes_do_not_depend_on_the_order() {
    let a = [4usize, 1, 7, 1, 3];
    let b = [1usize, 3, 7, 4, 1];
    assert_eq!(Max::from_slice(&a).get_max(), Max::from_slice(&b).get_max());
    assert_eq!(Min::from_slice(&a).get_min(), Min::from_slice(&b).get_min());
    assert_eq!(Some(7), Max::from_slice(&b).get_max());
    assert_eq!(Some(1), Min::from_slice(&a).get_min());
}
