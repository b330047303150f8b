use libguttt::Position;

#[test]
fn position_round_trip_from_xy() {
    for y in 0..3u8 {
        for x in 0..3u8 {
            let p = Position::from_xy(x, y);
            assert_eq!(p.get_cid(), y * 3 + x);
            assert_eq!(p.get_x(), x);
            assert_eq!(p.get_y(), y);
            let q = Position::from_cid(p.get_cid());
            assert_eq!(q.get_x(), x);
            assert_eq!(q.get_y(), y);
            assert_eq!(q, p);
        }
    }
}

#[test]
fn position_from_cid_coordinates() {
    let p = Position::from_cid(7);
    assert_eq!(p.get_x(), 1);
    assert_eq!(p.get_y(), 2);
    assert_eq!(Position::from_cid(5).get_x(), 2);
    assert_eq!(Position::from_cid(5).get_y(), 1);
}

#[test]
fn position_default_is_first_cell() {
    let p = Position::default();
    assert_eq!(p.get_cid(), 0);
    assert_eq!(p, Position::from_xy(0, 0));
}

