use mkwebfont::text_runs::{join_text_runs, TextPiece};

fn piece(style: u64, text: &str) -> TextPiece {
    TextPiece { style, text: text.to_string() }
}

#[test]
fn consecutive_pieces_of_one_style_join() {
    let pieces = vec![piece(1, "Hello "), piece(1, "world"), piece(2, "bold"), piece(1, "again")];
    assert_eq!(
        join_text_runs(0, &pieces),
        vec![(1, "Hello world".to_string()), (2, "bold".to_string()), (1, "again".to_string())]
    );
}

#[test]
fn text_of_the_initial_style_joins_the_first_run() {
    let pieces = vec![piece(0, "plain "), piece(0, "text"), piece(3, "")];
    assert_eq!(join_text_runs(0, &pieces), vec![(0, "plain text".to_string())]);
}

#[test]
fn empty_runs_are_left_out() {
    let pieces = vec![piece(5, ""), piece(6, "x")];
    assert_eq!(join_text_runs(0, &pieces), vec![(6, "x".to_string())]);
    assert!(join_text_runs(0, &vec![]).is_empty());
}
