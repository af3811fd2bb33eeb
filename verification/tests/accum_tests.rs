use go::accum::Accum;
use go::one::One;

#[test]
fn accum_simple() {
    let seq = vec![1, 2, 3, 4];
    assert_eq!(10, seq.accum(0, |s: i32, v| s + v));
}

#[test]
fn accum_order() {
    let seq = vec!["a", "b", "c"];
    let joined = seq.accum(String::new(), |mut s: String, v| {
        s.push_str(v);
        s
    });
    assert_eq!(joined, "abc");
}

#[test]
fn accum_empty() {
    let seq: Vec<i32> = Vec::new();
    assert_eq!(7, seq.accum(7, |s: i32, v| s + v));
}

#[test]
fn one_values() {
    let empty: One<i32> = One::from_vec(Vec::new());
    assert!(empty.is_empty());
    assert_eq!(empty.value(), None);

    let first = One::from_vec(vec![4, 5, 6]);
    assert!(!first.is_empty());
    assert_eq!(first.value(), Some(4));

    let given = One::new(Some(9));
    assert!(!given.is_empty());
    assert_eq!(given.value(), Some(9));
}
