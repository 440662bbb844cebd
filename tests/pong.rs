use kvstore::pong::{PaddleSystem, Side};

#[test]
fn axis_per_side() {
    assert_eq!(Side::Left.axis_name(), "left_paddle");
    assert_eq!(Side::Right.axis_name(), "right_paddle");
    assert_eq!(PaddleSystem.axis_for(Side::Right), "right_paddle");
    assert!(Side::Left != Side::Right);
}
