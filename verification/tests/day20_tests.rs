use advent::day20::{day20a, mod_floor, new_index, update};

#[test]
fn find_new_index_a() {
    let actual = new_index(7, 0, 1);
    assert_eq!(actual, 1);
}

#[test]
fn find_new_index_b() {
    let actual = new_index(7, 0, 2);
    assert_eq!(actual, 2);
}

#[test]
fn find_new_index_c() {
    let actual = new_index(7, 1, -3);
    assert_eq!(actual, 4);
}

#[test]
fn find_new_index_d() {
    let actual = new_index(7, 2, 3);
    assert_eq!(actual, 5);
}

#[test]
fn find_new_index_e() {
    let actual = new_index(7, 2, -2);
    assert_eq!(actual, 6);
}

#[test]
fn find_new_index_f() {
    let actual = new_index(7, 3, 0);
    assert_eq!(actual, 3);
}

#[test]
fn find_new_index_g() {
    let actual = new_index(7, 5, 4);
    assert_eq!(actual, 3);
}

#[test]
fn update_a() {
    let mut actual = vec![1, 2, -3, 3, -2, 0, 4];
    update(&mut actual, 0, 1);
    let expected = vec![2, 1, -3, 3, -2, 0, 4];
    assert_eq!(actual, expected);
}

#[test]
fn update_b() {
    let mut actual = vec![2, 1, -3, 3, -2, 0, 4];
    update(&mut actual, 0, 2);
    let expected = vec![1, -3, 2, 3, -2, 0, 4];
    assert_eq!(actual, expected);
}

#[test]
fn update_c() {
    let mut actual = vec![1, -3, 2, 3, -2, 0, 4];
    update(&mut actual, 1, 4);
    let expected = vec![1, 2, 3, -2, -3, 0, 4];
    assert_eq!(actual, expected);
}

#[test]
fn update_d() {
    let mut actual = vec![1, 2, 3, -2, -3, 0, 4];
    update(&mut actual, 2, 5);
    let expected = vec![1, 2, -2, -3, 0, 3, 4];
    assert_eq!(actual, expected);
}

#[test]
fn update_e() {
    let mut actual = vec![1, 2, -2, -3, 0, 3, 4];
    update(&mut actual, 2, 6);
    let expected = vec![1, 2, -3, 0, 3, 4, -2];
    assert_eq!(actual, expected);
}

#[test]
fn update_f() {
    let mut actual = vec![1, 2, -3, 0, 3, 4, -2];
    update(&mut actual, 3, 3);
    let expected = vec![1, 2, -3, 0, 3, 4, -2];
    assert_eq!(actual, expected);
}

#[test]
fn update_g() {
    let mut actual = vec![1, 2, -3, 0, 3, 4, -2];
    update(&mut actual, 5, 3);
    let expected = vec![1, 2, -3, 4, 0, 3, -2];
    assert_eq!(actual, expected);
}

#[test]
fn mod_floor_wraps_negative_values() {
    assert_eq!(mod_floor(-1, 7), 6);
    assert_eq!(mod_floor(-8, 7), 6);
    assert_eq!(mod_floor(0, 7), 0);
    assert_eq!(mod_floor(9, 7), 2);
}

#[test]
fn find_groove_coordinates() {
    let numbers = vec![1, 2, -3, 3, -2, 0, 4];
    let actual = day20a(&numbers);
    assert_eq!(actual, 3);
}
