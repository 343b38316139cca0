use mixed_signals::visualization::{block_spans, braille_row, graph_symbol, zero_line_row, RenderMode};

#[test]
fn graph_symbol_corners() {
    assert_eq!(graph_symbol(0, 0), ' ');
    assert_eq!(graph_symbol(0, 4), '\u{28B8}');
    assert_eq!(graph_symbol(4, 0), '\u{2847}');
    assert_eq!(graph_symbol(4, 4), '\u{28FF}');
    assert_eq!(graph_symbol(1, 1), '\u{28C0}');
    assert_eq!(graph_symbol(2, 3), '\u{28F4}');
}

#[test]
fn graph_symbol_blank_only_when_both_empty() {
    for prev in 0..=4usize {
        for cur in 0..=4usize {
            assert_eq!(graph_symbol(prev, cur) == ' ', prev == 0 && cur == 0);
        }
    }
}

#[test]
fn braille_row_uses_left_neighbour() {
    let row = braille_row(&vec![2, 4, 0, 0]);
    assert_eq!(row, vec!['\u{28E4}', '\u{28FC}', '\u{2847}', ' ']);
    assert!(braille_row(&vec![]).is_empty());
}

#[test]
fn zero_line_row_first_partial() {
    assert_eq!(zero_line_row(&vec![4, 4, 2, 1, 0]), Some(2));
    assert_eq!(zero_line_row(&vec![0, 3]), Some(1));
    assert_eq!(zero_line_row(&vec![4, 0, 0]), None);
    assert_eq!(zero_line_row(&vec![]), None);
}

#[test]
fn block_spans_join_neighbours() {
    let spans = block_spans(&vec![3, 1, 1, 4], 5);
    assert_eq!(spans, vec![Some((3, 3)), Some((1, 3)), Some((1, 1)), Some((1, 4))]);
}

#[test]
fn block_spans_cut_at_bottom() {
    let spans = block_spans(&vec![2, 7, 9], 4);
    assert_eq!(spans, vec![Some((2, 2)), Some((2, 3)), None]);
}

#[test]
fn render_mode_is_copy() {
    let mode = RenderMode::Braille;
    let other = mode;
    assert_eq!(mode, other);
    assert_ne!(mode, RenderMode::Block);
}
