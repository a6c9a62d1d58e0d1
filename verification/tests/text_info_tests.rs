use mkwebfont::apply_rules::ParsedFontStyle;
use mkwebfont::font_info::{StyleSet, TextInfoBuilder};

fn strs(v: &[&str]) -> Vec<String> {
    v.iter().map(|s| s.to_string()).collect()
}

#[test]
fn builder_groups_by_stack_and_key() {
    let mut b = TextInfoBuilder::new();
    let stacks = vec![strs(&["Noto Sans", "serif"]), strs(&["Inter"])];
    b.push_sample(&stacks, &vec![ParsedFontStyle::Normal], &vec![700, 400, 700], &strs(&["world", "", "hello"]));
    b.push_sample(&vec![strs(&["Inter"])], &vec![ParsedFontStyle::Italic], &vec![400], &strs(&["x"]));
    b.push_sample(&vec![strs(&["Inter"])], &vec![ParsedFontStyle::Normal], &vec![400, 700], &strs(&["again", "hello"]));
    let info = b.build();
    assert_eq!(info.data.len(), 2);
    assert_eq!(info.data[0].stack, strs(&["Inter"]));
    assert_eq!(info.data[1].stack, strs(&["Noto Sans", "serif"]));
    let inter = &info.data[0].samples;
    assert_eq!(inter.len(), 2);
    let normal = StyleSet { normal: true, italics: false, oblique: false };
    let italic = StyleSet { normal: false, italics: true, oblique: false };
    assert!(inter[0].used_styles == normal);
    assert_eq!(inter[0].used_weights, vec![400, 700]);
    assert_eq!(inter[0].content, strs(&["again", "hello", "world"]));
    assert!(inter[1].used_styles == italic);
    assert_eq!(inter[1].used_weights, vec![400]);
    assert_eq!(inter[1].content, strs(&["x"]));
    let noto = &info.data[1].samples;
    assert_eq!(noto.len(), 1);
    assert_eq!(noto[0].content, strs(&["hello", "world"]));
}

#[test]
fn builder_keeps_samples_without_text() {
    let mut b = TextInfoBuilder::new();
    b.push_sample(&vec![strs(&["A"])], &vec![], &vec![], &strs(&["", ""]));
    let info = b.build();
    assert_eq!(info.data.len(), 1);
    assert_eq!(info.data[0].samples.len(), 1);
    assert!(info.data[0].samples[0].content.is_empty());
    assert!(info.data[0].samples[0].used_weights.is_empty());
}

#[test]
fn empty_builder_builds_nothing() {
    assert!(TextInfoBuilder::new().build().data.is_empty());
}
