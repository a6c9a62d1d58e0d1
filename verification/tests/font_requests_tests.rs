use mkwebfont::font_info::{FontStackInfo, StyleSet, TextSample, TextSampleStyle};
use mkwebfont::font_requests::font_requests;

fn sample(normal: bool, italics: bool, weights: Vec<i32>) -> TextSample {
    TextSample { used_styles: StyleSet { normal, italics, oblique: false }, used_weights: weights, content: vec![] }
}

#[test]
fn requests_in_stack_family_sample_style_weight_order() {
    let stacks = vec![FontStackInfo {
        stack: vec!["Inter".to_string(), "Noto".to_string()],
        samples: vec![sample(true, true, vec![400, 700]), sample(false, true, vec![300])],
    }];
    let got: Vec<(String, TextSampleStyle, i32)> =
        font_requests(&stacks).into_iter().map(|r| (r.family, r.style, r.weight)).collect();
    let mut want = Vec::new();
    for f in ["Inter", "Noto"] {
        want.push((f.to_string(), TextSampleStyle::Normal, 400));
        want.push((f.to_string(), TextSampleStyle::Normal, 700));
        want.push((f.to_string(), TextSampleStyle::Italics, 400));
        want.push((f.to_string(), TextSampleStyle::Italics, 700));
        want.push((f.to_string(), TextSampleStyle::Italics, 300));
    }
    assert_eq!(got, want);
}

#[test]
fn no_stacks_no_requests() {
    assert!(font_requests(&vec![]).is_empty());
}
