use hyperchess::camera::{BoardCameraView, Value};

fn place(view: &BoardCameraView) -> (Value, Value, Value) {
    (view.x(), view.y(), view.z())
}

#[test]
fn left_turns_go_round_the_ring() {
    let mut view = BoardCameraView::new(Value::Pos, Value::Zero, Value::Zero);
    let ring = [
        (Value::Pos, Value::Neg),
        (Value::Zero, Value::Neg),
        (Value::Neg, Value::Neg),
        (Value::Neg, Value::Zero),
        (Value::Neg, Value::Pos),
        (Value::Zero, Value::Pos),
        (Value::Pos, Value::Pos),
        (Value::Pos, Value::Zero),
    ];
    for (x, z) in ring {
        view.left();
        assert_eq!(place(&view), (x, Value::Zero, z));
    }
}

#[test]
fn right_turn_undoes_left_turn() {
    for x in [Value::Pos, Value::Zero, Value::Neg] {
        for z in [Value::Pos, Value::Zero, Value::Neg] {
            let mut view = BoardCameraView::new(x, Value::Neg, z);
            view.left();
            view.right();
            assert_eq!(place(&view), (x, Value::Neg, z));
            view.right();
            view.left();
            assert_eq!(place(&view), (x, Value::Neg, z));
        }
    }
}

#[test]
fn right_turn_from_the_start() {
    let mut view = BoardCameraView::new(Value::Zero, Value::Zero, Value::Neg);
    view.right();
    assert_eq!(place(&view), (Value::Pos, Value::Zero, Value::Neg));
    view.right();
    assert_eq!(place(&view), (Value::Pos, Value::Zero, Value::Zero));
}

#[test]
fn the_place_above_the_centre_does_not_turn() {
    let mut view = BoardCameraView::new(Value::Zero, Value::Pos, Value::Zero);
    view.left();
    assert_eq!(place(&view), (Value::Zero, Value::Pos, Value::Zero));
    view.right();
    assert_eq!(place(&view), (Value::Zero, Value::Pos, Value::Zero));
}

#[test]
fn up_and_down_stop_at_the_ends() {
    let mut view = BoardCameraView::new(Value::Pos, Value::Neg, Value::Pos);
    view.up();
    assert_eq!(view.y(), Value::Zero);
    view.up();
    assert_eq!(view.y(), Value::Pos);
    view.up();
    assert_eq!(view.y(), Value::Pos);
    view.down();
    assert_eq!(view.y(), Value::Zero);
    view.down();
    assert_eq!(view.y(), Value::Neg);
    view.down();
    assert_eq!(place(&view), (Value::Pos, Value::Neg, Value::Pos));
}
