use mkwebfont::rewrite_targets::{choose_font_sheets, StylesheetLink};

fn link(path: &str, rel: &str, exists: bool) -> StylesheetLink {
    StylesheetLink { path: path.to_string(), rel: rel.to_string(), exists }
}

fn strs(v: &[&str]) -> Vec<String> {
    v.iter().map(|s| s.to_string()).collect()
}

#[test]
fn marked_sheet_receives_font_faces() {
    let links = vec![link("a.css", "stylesheet", true), link("f.css", "stylesheet mkwebfont-out", false)];
    assert_eq!(choose_font_sheets(&links), (strs(&["a.css"]), strs(&["f.css"])));
}

#[test]
fn first_sheet_taken_when_none_marked() {
    let links = vec![link("a.css", "stylesheet", true), link("b.css", "stylesheet", true)];
    assert_eq!(choose_font_sheets(&links), (strs(&["b.css"]), strs(&["a.css"])));
}

#[test]
fn one_missing_sheet_takes_first_existing() {
    let links = vec![link("gone.css", "stylesheet", false), link("a.css", "stylesheet", true), link("b.css", "stylesheet", true)];
    assert_eq!(choose_font_sheets(&links), (strs(&["gone.css", "b.css"]), strs(&["a.css"])));
}

#[test]
fn no_sheets() {
    assert_eq!(choose_font_sheets(&vec![]), (vec![], vec![]));
}
