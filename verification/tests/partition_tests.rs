use raytracer::partition_by_key;

#[test]
fn test_1() {
    let mut data: [i32; 1] = [5];
    let (ll, rl) = partition_by_key(&mut data, 6, |n| *n);
    assert_eq!(ll, &[5]);
    assert_eq!(rl, &[]);
}

#[test]
fn test_2() {
    let mut data: [i32; 6] = [5, 3, 5, 11, 2, 8];
    let (ll, rl) = partition_by_key(&mut data, 6, |n| *n);
    assert_eq!(ll, &[5, 3, 5, 2]);
    assert_eq!(rl, &[8, 11]);
}

#[test]
fn test_3() {
    let mut data: [i32; 3] = [10, 5, 0];
    let (ll, rl) = partition_by_key(&mut data, 5, |n| *n);
    assert_eq!(ll, &[0, 5]);
    assert_eq!(rl, &[10]);
}

#[test]
fn partition_examines_the_last_element() {
    let mut data: [i32; 2] = [2, 8];
    let (ll, rl) = partition_by_key(&mut data, 6, |n| *n);
    assert_eq!(ll, &[2]);
    assert_eq!(rl, &[8]);
}

#[test]
fn partition_single_element_above_split() {
    let mut data: [i32; 1] = [10];
    let (ll, rl) = partition_by_key(&mut data, 5, |n| *n);
    assert_eq!(ll, &[]);
    assert_eq!(rl, &[10]);
}

#[test]
fn partition_all_above_split() {
    let mut data: [i32; 4] = [9, 8, 7, 10];
    let (ll, rl) = partition_by_key(&mut data, 0, |n| *n);
    assert_eq!(ll, &[]);
    assert_eq!(rl, &[8, 7, 10, 9]);
}

#[test]
fn partition_by_selected_field() {
    let mut data: [(i32, char); 4] = [(3, 'a'), (1, 'b'), (4, 'c'), (1, 'd')];
    let (ll, rl) = partition_by_key(&mut data, 2, |p| p.0);
    assert_eq!(ll, &[(1, 'd'), (1, 'b')]);
    assert_eq!(rl, &[(4, 'c'), (3, 'a')]);
}

#[test]
fn float_keys_split_around_the_mean() {
    let mut data: [(usize, f32); 5] = [(0, 4.0), (1, -1.5), (2, 9.0), (3, 2.5), (4, 2.5)];
    let (left, right) = partition_by_key(&mut data, 2.5f32, |p| p.1);
    assert!(left.iter().all(|p| p.1 <= 2.5));
    assert!(right.iter().all(|p| p.1 > 2.5));
    assert_eq!(left.len(), 3);
    assert_eq!(right.len(), 2);
}
