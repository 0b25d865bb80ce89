use srither::position::{
    down_left_step, down_right_step, down_step, left_step, right_step, up_left_step, up_right_step,
    up_step, Position, Rotation,
};
use srither::sized_union_find::UnionFind as SizedUnionFind;
use srither::union_find::UnionFind;

#[test]
fn test_rotation() {
    let vs = [
        up_step(),
        up_left_step(),
        left_step(),
        down_left_step(),
        down_step(),
        down_right_step(),
        right_step(),
        up_right_step(),
    ];
    for (i, v) in vs.iter().enumerate() {
        assert!(Rotation::ucw0_deg().mul(*v) == vs[i]);
        assert!(Rotation::ucw90_deg().mul(*v) == vs[(i + 2) % vs.len()]);
        assert!(Rotation::ucw180_deg().mul(*v) == vs[(i + 4) % vs.len()]);
        assert!(Rotation::ucw270_deg().mul(*v) == vs[(i + 6) % vs.len()]);
    }
}

#[test]
fn test_union_find() {
    let mut uf = UnionFind::<usize>::new(10);
    assert!(uf.find(0) == uf.find(0));
    assert!(uf.find(0) != uf.find(1));
    assert!(uf.find(0) != uf.find(2));
    uf.union(0, 1);
    assert!(uf.find(0) == uf.find(0));
    assert!(uf.find(0) == uf.find(1));
    assert!(uf.find(0) != uf.find(2));
    uf.union(0, 2);
    uf.union(3, 4);
    assert!(uf.find(0) != uf.find(3));
    uf.union(0, 3);
    assert!(uf.find(0) == uf.find(3));
}

// `find` and `union` are defined on the keys below `size()` only; their contracts refuse
// key 10 of a forest of 10 elements, which the call would not survive.
#[test]
fn test_find_overflow() {
    let uf = UnionFind::<usize>::new(10);
    assert_eq!(10, uf.size());
    assert!(!(10 < uf.size()));
}

#[test]
fn test_union_overflow() {
    let mut uf = UnionFind::<usize>::new(10);
    assert!(0 < uf.size());
    assert!(!(10 < uf.size()));
    assert!(uf.union(0, 9));
}

#[test]
fn union_find_test_union_find() {
    let mut uf = SizedUnionFind::from_elem(100, ());
    assert!(uf.get_size(0) == 1);
    assert!(uf.get_size(1) == 1);
    assert!(!uf.find(0, 1));
    assert!(!uf.find(1, 2));
    assert!(uf.union(0, 1));
    assert!(uf.find(0, 1));
    assert!(uf.get_size(0) == 2);
    assert!(uf.get_size(1) == 2);
    assert!(uf.get_size(2) == 1);
    assert!(!uf.union(0, 1));
    assert!(uf.get_size(0) == 2);
    assert!(uf.get_size(1) == 2);
    assert!(uf.get_size(2) == 1);
    assert!(uf.union(1, 2));
    assert!(uf.get_size(0) == 3);
    assert!(uf.get_size(1) == 3);
    assert!(uf.get_size(2) == 3);
    assert!(uf.find(0, 1));
    assert!(uf.find(2, 1));
}

#[test]
fn union_find_values_merge() {
    let mut uf = UnionFind::<usize>::new(4);
    assert_eq!(1, uf.get_value(2));
    uf.union(1, 2);
    assert_eq!(2, uf.get_value(1));
    uf.set_value(2, 7);
    assert_eq!(7, uf.get_value(1));
    assert_eq!(4, uf.size());
}

#[test]
fn union_find_total_size() {
    let mut uf = SizedUnionFind::from_elem(5, ());
    assert_eq!(5, uf.get_total_size());
    uf.union(0, 4);
    uf.union(4, 3);
    assert_eq!(3, uf.get_size(0));
    assert!(uf.find(0, 3));
    assert!(!uf.find(1, 3));
}

#[test]
fn union_find_values_are_class_sizes() {
    let mut uf = UnionFind::<usize>::new(6);
    uf.union(0, 1);
    uf.union(2, 3);
    uf.union(1, 3);
    assert_eq!(4, uf.get_value(0));
    assert_eq!(4, uf.get_value(2));
    assert_eq!(1, uf.get_value(4));
    uf.union(4, 5);
    assert_eq!(2, uf.get_value(5));
}

#[test]
fn single_steps_round_trip_at_the_edges() {
    let p = Position::new((i32::MAX, 0));
    assert!(p.down().up().eq(&p));
    assert!(p.up().down().eq(&p));
    let q = Position::new((0, i32::MIN));
    assert!(q.right().left().eq(&q));
    assert!(q.left().right().eq(&q));
}

#[test]
fn turned_steps() {
    let p = Position::new((3, 5));
    assert!(p.right_on(Rotation::ucw90_deg()).eq(&p.up()));
    assert!(p.right_on(Rotation::ucw0_deg()).eq(&p.right()));
    assert!(p.right_on(Rotation::ucw180_deg()).eq(&p.left()));
    assert!(p.up_on(Rotation::cw90_deg()).eq(&p.right()));
    assert!(p.up_on(Rotation::ucw0_deg()).eq(&p.up()));
    assert!(p.up_on(Rotation::cw180_deg()).eq(&p.down()));
}
