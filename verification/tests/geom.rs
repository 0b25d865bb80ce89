use srither::geom::{Move, Point, Rotation, Size};

#[test]
fn points() {
    let pts = [
        Point(0, 0),
        Point(0, 1),
        Point(0, 2),
        Point(1, 0),
        Point(1, 1),
        Point(1, 2),
        Point(2, 0),
        Point(2, 1),
        Point(2, 2),
        Point(3, 0),
        Point(3, 1),
        Point(3, 2),
    ];
    let size = Size(4, 3);
    assert_eq!(&pts[..], &size.points().to_vec()[..]);
}

#[test]
fn geom_rotate_mat() {
    let mat = [Rotation::ucw0(), Rotation::ucw90(), Rotation::ucw180(), Rotation::ucw270()];
    for i in 0..mat.len() {
        for j in 0..mat.len() {
            assert_eq!(mat[(i + j) % mat.len()], mat[i].mul_mat(mat[j]));
        }
    }
}

#[test]
fn geom_rotate_point() {
    let mat = [Rotation::ucw0(), Rotation::ucw90(), Rotation::ucw180(), Rotation::ucw270()];
    let vec = [
        [Move::up(), Move::left(), Move::down(), Move::right()],
        [
            Move::up().add(Move::right()),
            Move::left().add(Move::up()),
            Move::down().add(Move::left()),
            Move::right().add(Move::down()),
        ],
    ];
    for i in 0..mat.len() {
        for v in &vec {
            for j in 0..v.len() {
                assert_eq!(v[(i + j) % v.len()], mat[i].mul(v[j]));
            }
        }
    }
}

#[test]
fn geom_flips_are_involutions() {
    assert_eq!(Rotation::ucw0(), Rotation::h_flip().mul_mat(Rotation::h_flip()));
    assert_eq!(Rotation::ucw0(), Rotation::v_flip().mul_mat(Rotation::v_flip()));
    assert_eq!(Move(1, -2), Rotation::h_flip().mul(Move(1, 2)));
}

#[test]
fn geom_cellid_roundtrip() {
    let size = Size(3, 4);
    assert_eq!(13, size.cell_len());
    let id = size.point_to_cellid(Point(2, 1));
    assert_eq!(10, id.id());
    assert_eq!(Point(2, 1), size.cellid_to_point(id));
    assert!(size.point_to_cellid(Point(3, 0)).is_outside());
    assert!(size.point_to_cellid(Point(-1, 0)).is_outside());
}

#[test]
fn geom_points_in_row_and_column() {
    let size = Size(2, 3);
    assert_eq!(vec![Point(1, 0), Point(1, 1), Point(1, 2)], size.points_in_row(1).to_vec());
    assert_eq!(vec![Point(0, 2), Point(1, 2)], size.points_in_column(2).to_vec());
}

#[test]
fn geom_point_moves() {
    assert_eq!(Point(0, 1), Point(1, 1).add(Move::up()));
    assert_eq!(Move(2, -1), Point(3, 1).sub(Point(1, 2)));
    assert_eq!(Move(-3, 0), Move::up().scale(3));
    assert_eq!(Move(1, 0), Move::up().neg());
}
