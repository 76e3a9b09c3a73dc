use geosolve::util::locate;

#[test]
fn locate_finds_the_first() {
    let items = vec![4usize, 7, 4, 9];
    assert_eq!(locate(&items, &4), Some(0));
    assert_eq!(locate(&items, &7), Some(1));
    assert_eq!(locate(&items, &9), Some(3));
}

#[test]
fn locate_misses() {
    let items = vec![4usize, 7, 4, 9];
    assert_eq!(locate(&items, &5), None);
    let none: Vec<usize> = vec![];
    assert_eq!(locate(&none, &5), None);
}
