use rand::seq::SliceRandom;
use webgraph::perm::invert_in_place;

#[test]
fn test_invert_in_place() {
    let mut v = (0..1000).collect::<Vec<_>>();
    v.shuffle(&mut rand::thread_rng());
    let mut w = v.clone();
    invert_in_place(&mut w);
    for i in 0..v.len() {
        assert_eq!(w[v[i]], i);
    }
}

#[test]
fn invert_twice_is_identity() {
    let mut v = (0..257).collect::<Vec<usize>>();
    v.shuffle(&mut rand::thread_rng());
    let orig = v.clone();
    invert_in_place(&mut v);
    invert_in_place(&mut v);
    assert_eq!(v, orig);
}

#[test]
fn invert_small_known() {
    let mut v: Vec<usize> = vec![2, 0, 1];
    invert_in_place(&mut v);
    assert_eq!(v, vec![1, 2, 0]);
}
