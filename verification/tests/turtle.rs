use toolkit::turtle::{turtle_program, TurnAxis, TurtleOp};

fn ops(s: &str) -> Vec<TurtleOp> {
    let symbols: Vec<char> = s.chars().collect();
    turtle_program(&symbols)
}

#[test]
fn symbols_map_to_operations() {
    assert_eq!(
        ops("Ff+-&^\\/|"),
        vec![
            TurtleOp::Draw,
            TurtleOp::Move,
            TurtleOp::Turn { axis: TurnAxis::Yaw, positive: true },
            TurtleOp::Turn { axis: TurnAxis::Yaw, positive: false },
            TurtleOp::Turn { axis: TurnAxis::Pitch, positive: true },
            TurtleOp::Turn { axis: TurnAxis::Pitch, positive: false },
            TurtleOp::Turn { axis: TurnAxis::Roll, positive: true },
            TurtleOp::Turn { axis: TurnAxis::Roll, positive: false },
            TurtleOp::TurnAround,
        ]
    );
}

#[test]
fn variables_are_ignored() {
    assert_eq!(ops("AXF"), vec![TurtleOp::Draw]);
    assert!(ops("ABC").is_empty());
}

#[test]
fn branch_saves_and_restores() {
    assert_eq!(
        ops("F[+F]F"),
        vec![
            TurtleOp::Draw,
            TurtleOp::Push,
            TurtleOp::Turn { axis: TurnAxis::Yaw, positive: true },
            TurtleOp::Draw,
            TurtleOp::Pop,
            TurtleOp::Draw,
        ]
    );
}

#[test]
fn unmatched_close_is_dropped() {
    assert_eq!(ops("]F[]]"), vec![TurtleOp::Draw, TurtleOp::Push, TurtleOp::Pop]);
}
