use walign::alignment::Alignment;
use walign::alignment::Edge;
use walign::alignment::Position;

#[test]
fn position_and_edge_carry_their_values() {
    let p = Position::new(7);
    assert_eq!(p.id, 7);
    let e = Edge::new(Position::new(3), Position::new(5));
    assert_eq!(e.source.id, 3);
    assert_eq!(e.target.id, 5);
}

#[test]
fn edge_renders_as_source_dash_target() {
    let e = Edge::new(Position::new(3), Position::new(5));
    assert_eq!(e.to_text(), "3-5");
    let e2 = Edge::new(Position::new(0), Position::new(0));
    assert_eq!(e2.to_text(), "0-0");
    let e3 = Edge::new(Position::new(1234567890), Position::new(42));
    assert_eq!(e3.to_text(), "1234567890-42");
}

#[test]
fn alignment_renders_space_separated_in_order() {
    let edges = vec![
        Edge::new(Position::new(0), Position::new(0)),
        Edge::new(Position::new(2), Position::new(1)),
        Edge::new(Position::new(1), Position::new(3)),
    ];
    let a = Alignment::new(edges);
    assert_eq!(a.to_text(), "0-0 2-1 1-3");
}

#[test]
fn empty_alignment_renders_empty() {
    let a = Alignment::new(Vec::new());
    assert_eq!(a.to_text(), "");
}
