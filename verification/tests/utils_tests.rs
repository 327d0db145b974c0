use prob_life::utils::substract_vec;

#[test]
fn test_substract_vec_keeps_order() {
    let v1: Vec<i32> = vec![1, 2, 3, 4, 2];
    let v2: Vec<i32> = vec![2, 4];
    assert_eq!(substract_vec(&v1, &v2), vec![1, 3]);
}

#[test]
fn test_substract_vec_empty_cases() {
    let empty: Vec<u64> = Vec::new();
    let some: Vec<u64> = vec![7, 8];
    assert_eq!(substract_vec(&empty, &some), Vec::<u64>::new());
    assert_eq!(substract_vec(&some, &empty), vec![7, 8]);
    assert_eq!(substract_vec(&some, &some), Vec::<u64>::new());
}
