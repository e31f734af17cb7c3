use eightfold::octant::{NodePoint, Octant};

#[test]
fn new() {
    assert_eq!(Octant::new(false, false, false), Octant(0));
    assert_eq!(Octant::new(false, false, true), Octant(1));
    assert_eq!(Octant::new(false, true, false), Octant(2));
    assert_eq!(Octant::new(false, true, true), Octant(3));
    assert_eq!(Octant::new(true, false, false), Octant(4));
    assert_eq!(Octant::new(true, false, true), Octant(5));
    assert_eq!(Octant::new(true, true, false), Octant(6));
    assert_eq!(Octant::new(true, true, true), Octant(7));
}

#[test]
fn not() {
    assert_eq!(Octant(7).not(), Octant(0));
    assert_eq!(Octant(6).not(), Octant(1));
    assert_eq!(Octant(5).not(), Octant(2));
    assert_eq!(Octant(4).not(), Octant(3));
    assert_eq!(Octant(3).not(), Octant(4));
    assert_eq!(Octant(2).not(), Octant(5));
    assert_eq!(Octant(1).not(), Octant(6));
    assert_eq!(Octant(0).not(), Octant(7));
}

#[test]
fn bits_keep_their_magnitude() {
    let o = Octant(7);
    assert_eq!((o.i(), o.j(), o.k()), (4, 2, 1));
    assert_eq!(Octant(5).vector(), (4, 0, 1));
    assert_eq!(Octant(2).vector(), (0, 2, 0));
    assert_eq!(Octant(6).index(), 6);
}

#[test]
fn all_lists_eight_in_order() {
    let all = Octant::all();
    assert_eq!(all.len(), 8);
    for (n, o) in all.iter().enumerate() {
        assert_eq!(o.0 as usize, n);
    }
}

#[test]
fn child_point_doubles_and_adds_bits() {
    let p = NodePoint::new(1, 0, 1, 1);
    assert_eq!(p.add(Octant(0)), NodePoint::new(2, 0, 2, 2));
    assert_eq!(p.add(Octant(7)), NodePoint::new(3, 1, 3, 2));
    assert_eq!(p.add(Octant(4)), NodePoint::new(3, 0, 2, 2));
}
