use vec_rotate::VecRotate;

#[test]
fn lib_test_initialise() {
    let _ = VecRotate::from(&[1, 2, 3, 4, 5]);
    let _ = VecRotate::new(vec![1, 2, 3, 4, 5]);
    let _ = VecRotate::from(&[1; 5]);
}

#[test]
fn lib_test_empty() {
    let empty: Vec<u32> = Vec::from([]);
    let mut empty_rotate = VecRotate::new(empty);
    assert!(empty_rotate.is_empty());
    empty_rotate.shift_forward(10);
    empty_rotate.shift_backward(10);
    assert!(empty_rotate.is_empty());
    assert_eq!(empty_rotate.start_index(), 0);
}

#[test]
fn lib_test_debug() {
    let mut rotate: VecRotate<u32> = VecRotate::from(&[1, 2, 3, 4, 5]);
    println!("Initialisation:\t{:?}", &rotate);
    assert_eq!(format!("{:?}", &rotate), "[1, 2, 3, 4, 5]");
    rotate.shift_forward(2);
    println!("Forward step:\t{:?}", &rotate);
    assert_eq!(format!("{:?}", &rotate), "[4, 5, 1, 2, 3]");
    rotate.shift_backward(2);
    println!("Backward step:\t{:?}", &rotate);
    assert_eq!(format!("{:?}", &rotate), "[1, 2, 3, 4, 5]");
}

#[test]
fn lib_test_clone() {
    let mut rotate: VecRotate<u32> = VecRotate::from(&[1, 2, 3, 4, 5]);
    let _: Vec<u32> = rotate.clone().into_iter().collect();
    rotate.shift_forward(3);
}

#[test]
fn lib_test_forward() {
    let mut rotate: VecRotate<u32> = VecRotate::from(&[1, 2, 3, 4, 5]);
    rotate.shift_forward(2);
    let mut rotated: Vec<u32> = rotate.clone().into();
    assert_eq!(rotated, vec![4, 5, 1, 2, 3]);
    rotate.shift_forward(5);
    rotated = rotate.clone().into();
    assert_eq!(rotated, vec![4, 5, 1, 2, 3]);
    rotate.shift_forward(21);
    rotated = rotate.clone().into();
    assert_eq!(rotated, vec![3, 4, 5, 1, 2]);
}

#[test]
fn lib_test_backward() {
    let mut rotate: VecRotate<u32> = VecRotate::from(&[1, 2, 3, 4, 5]);
    rotate.shift_backward(2);
    let mut rotated: Vec<u32> = rotate.clone().into();
    assert_eq!(rotated, vec![3, 4, 5, 1, 2]);
    rotate.shift_backward(5);
    rotated = rotate.clone().into();
    assert_eq!(rotated, vec![3, 4, 5, 1, 2]);
    rotate.shift_backward(14);
    rotated = rotate.clone().into();
    assert_eq!(rotated, vec![2, 3, 4, 5, 1]);
}

#[test]
fn test_no_increments() {
    let mut rotate: VecRotate<u32> = VecRotate::from(&[1, 2, 3, 4, 5]);
    rotate.shift_forward(0);
    assert_eq!(rotate.start_index(), 0);
    assert_eq!(rotate.to_vec(), vec![1, 2, 3, 4, 5]);
    rotate.shift_backward(0);
    assert_eq!(rotate.start_index(), 0);
    assert_eq!(rotate.to_vec(), vec![1, 2, 3, 4, 5]);
    rotate.shift_backward(2);
    rotate.shift_forward(0);
    assert_eq!(rotate.start_index(), 2);
    assert_eq!(rotate.to_vec(), vec![3, 4, 5, 1, 2]);
}

#[test]
fn lib_test_big_step() {
    let mut rotate: VecRotate<u32> = VecRotate::from(&[1, 2, 3, 4, 5]);
    rotate.shift_forward(usize::MAX);
    assert_eq!(rotate.start_index(), (5 - usize::MAX % 5) % 5);
    let forward: Vec<u32> = rotate.clone().into();
    let mut reduced: VecRotate<u32> = VecRotate::from(&[1, 2, 3, 4, 5]);
    reduced.shift_forward(usize::MAX % 5);
    assert_eq!(forward, reduced.to_vec());
    rotate.shift_backward(usize::MAX);
    assert_eq!(rotate.start_index(), 0);
    assert_eq!(rotate.to_vec(), vec![1, 2, 3, 4, 5]);
    rotate.shift_backward(usize::MAX);
    assert_eq!(rotate.start_index(), usize::MAX % 5);
}

#[test]
fn lib_test_small_step_at_end() {
    let mut rotate: VecRotate<u32> = VecRotate::from(&[1, 2, 3]);
    rotate.shift_backward(2);
    assert_eq!(rotate.start_index(), 2);
    rotate.shift_backward(1);
    assert_eq!(rotate.start_index(), 0);
    assert_eq!(rotate.to_vec(), vec![1, 2, 3]);
    rotate.shift_forward(1);
    assert_eq!(rotate.start_index(), 2);
    assert_eq!(rotate.to_vec(), vec![3, 1, 2]);
}

#[test]
fn test_different_element_types() {
    let mut words: VecRotate<String> =
        VecRotate::new(vec![String::from("a"), String::from("b"), String::from("c")]);
    words.shift_forward(1);
    assert_eq!(words.to_vec(), vec![String::from("c"), String::from("a"), String::from("b")]);
    words.push(String::from("d"));
    assert_eq!(format!("{:?}", &words), "[\"c\", \"a\", \"b\", \"d\"]");

    let mut pairs: VecRotate<(u8, bool)> = VecRotate::from(&[(1, true), (2, false)]);
    pairs.shift_backward(1);
    assert_eq!(pairs[0], (2, false));
    assert_eq!(pairs[1], (1, true));

    let mut units: VecRotate<()> = VecRotate::new(vec![(); 4]);
    units.shift_backward(usize::MAX);
    assert_eq!(units.start_index(), usize::MAX % 4);
    assert_eq!(units.len(), 4);
}

#[test]
fn lib_test_big_array() {
    let items: Vec<u32> = (0..100_000).collect();
    let mut rotate: VecRotate<u32> = VecRotate::new(items.clone());
    rotate.shift_forward(1);
    assert_eq!(rotate[0], 99_999);
    assert_eq!(rotate[1], 0);
    assert_eq!(rotate[99_999], 99_998);
    rotate.shift_backward(1);
    let back: Vec<u32> = rotate.into();
    assert_eq!(back, items);
}
