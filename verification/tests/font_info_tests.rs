use mkwebfont::font_info::{FontStackInfo, StyleSet, TextSample};

fn sample(texts: &[&str]) -> TextSample {
    TextSample {
        used_styles: StyleSet { normal: true, italics: false, oblique: false },
        used_weights: vec![400],
        content: texts.iter().map(|t| t.to_string()).collect(),
    }
}

#[test]
fn sample_glyphs_are_sorted_and_distinct() {
    assert_eq!(sample(&["hello", "world"]).glyphs(), "dehlorw");
    assert_eq!(sample(&[]).glyphs(), "");
    assert_eq!(sample(&["ba", "한a"]).glyphs(), "ab한");
}

#[test]
fn stack_glyphs_join_samples() {
    let info = FontStackInfo { stack: vec!["A".to_string()], samples: vec![sample(&["zz"]), sample(&["az", "b"])] };
    assert_eq!(info.glyphs(), "abz");
}
