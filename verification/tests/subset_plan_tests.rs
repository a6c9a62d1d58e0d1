use mkwebfont::character_set::CharacterSet;
use mkwebfont::subset_plan::{
    chars_to_set, font_list_names, parse_charset, parse_spec, readable_charset, readable_spec, AssignedSubsets, CharsetError, CharsetSpec, EmptyFontList, PlanFont,
    SpecCommand, SpecError, SubsetDataBuilder,
};

fn set(values: &[u32]) -> CharacterSet {
    let mut s = CharacterSet::new();
    for &v in values {
        s.insert(v);
    }
    s
}

fn sorted(s: &CharacterSet) -> Vec<u32> {
    let mut v: Vec<u32> = Vec::new();
    let mut it = s.iter();
    while let Some(c) = it.next() {
        v.push(c);
    }
    v.sort();
    v
}

fn font(id: usize, family: &str, codepoints: &[u32]) -> PlanFont {
    PlanFont { id, family: family.to_string(), codepoints: set(codepoints) }
}

fn chars_of(spec: CharsetSpec) -> Vec<u32> {
    match spec {
        CharsetSpec::Chars(s) => sorted(&s),
        CharsetSpec::File(p) => panic!("unexpected file {}", p),
    }
}

#[test]
fn chars_to_set_takes_each_character() {
    assert_eq!(sorted(&chars_to_set("abca")), vec![97, 98, 99]);
    assert_eq!(sorted(&chars_to_set("")), Vec::<u32>::new());
}

#[test]
fn charset_plain_characters() {
    assert_eq!(chars_of(parse_charset("xyz").ok().unwrap()), vec![120, 121, 122]);
}

#[test]
fn charset_file_reference() {
    match parse_charset("@chars.txt").ok().unwrap() {
        CharsetSpec::File(p) => assert_eq!(p, "chars.txt"),
        CharsetSpec::Chars(_) => panic!("expected a file"),
    }
}

#[test]
fn charset_ranges() {
    assert_eq!(chars_of(parse_charset("#U+41-43").ok().unwrap()), vec![0x41, 0x42, 0x43]);
    assert_eq!(chars_of(parse_charset("#U+41, U+61").ok().unwrap()), vec![0x41, 0x61]);
    let wild = chars_of(parse_charset("#U+4?").ok().unwrap());
    assert_eq!(wild, (0x40..=0x4F).collect::<Vec<u32>>());
}

#[test]
fn charset_errors() {
    assert_eq!(parse_charset("#U+41-42-43").err(), Some(CharsetError::MultipleDashes));
    assert_eq!(parse_charset("#U+ZZ").err(), Some(CharsetError::BadNumber));
    assert_eq!(parse_charset("#U+41-QQ").err(), Some(CharsetError::BadNumber));
}

#[test]
fn spec_forms() {
    match parse_spec("@more.txt").ok().unwrap() {
        SpecCommand::Include(p) => assert_eq!(p, "more.txt"),
        _ => panic!("expected an include"),
    }
    match parse_spec("exclude:*:ab").ok().unwrap() {
        SpecCommand::AllExclusion(c) => assert_eq!(chars_of(c), vec![97, 98]),
        _ => panic!("expected an exclusion for all fonts"),
    }
    match parse_spec("exclude:Foo:ab").ok().unwrap() {
        SpecCommand::Exclusion(f, c) => {
            assert_eq!(f, "Foo");
            assert_eq!(chars_of(c), vec![97, 98]);
        }
        _ => panic!("expected an exclusion"),
    }
    match parse_spec("preload:*:a").ok().unwrap() {
        SpecCommand::AllPreload(c) => assert_eq!(chars_of(c), vec![97]),
        _ => panic!("expected a preload for all fonts"),
    }
    match parse_spec("preload:Foo:a").ok().unwrap() {
        SpecCommand::Preload(f, c) => {
            assert_eq!(f, "Foo");
            assert_eq!(chars_of(c), vec![97]);
        }
        _ => panic!("expected a preload"),
    }
    match parse_spec("*:z").ok().unwrap() {
        SpecCommand::AllSubset(c) => assert_eq!(chars_of(c), vec![122]),
        _ => panic!("expected a subset for all fonts"),
    }
    match parse_spec("Foo, Bar:#U+41").ok().unwrap() {
        SpecCommand::Stack(f, c) => {
            assert_eq!(f, "Foo, Bar");
            assert_eq!(chars_of(c), vec![0x41]);
        }
        _ => panic!("expected a stack"),
    }
}

#[test]
fn spec_errors() {
    assert!(matches!(parse_spec("no colon here"), Err(SpecError::BadFormat)));
    assert!(matches!(parse_spec("exclude:nocolon"), Err(SpecError::BadFormat)));
    assert!(matches!(parse_spec("Foo:#U+41-42-43"), Err(SpecError::Charset(CharsetError::MultipleDashes))));
}

#[test]
fn stack_shares_text_along_lists() {
    let a = font(1, "Alpha", &[97, 98]);
    let b = font(2, "Beta", &[98, 99]);
    let mut builder = SubsetDataBuilder::new();
    let lists = vec![vec![font(1, "Alpha", &[97, 98])], vec![font(2, "Beta", &[98, 99])]];
    assert!(builder.push_stack(set(&[97, 98, 99, 100]), &lists).is_ok());
    let plan = builder.build();
    assert_eq!(sorted(&plan.get_used_chars(&a)), vec![97, 98]);
    assert_eq!(sorted(&plan.get_used_chars(&b)), vec![99]);
    // Alpha must not claim what Beta serves after it.
    assert_eq!(sorted(&plan.get_range_exclusion(&a)), vec![97, 98, 99]);
    assert_eq!(sorted(&plan.get_range_exclusion(&b)), vec![99]);
    assert_eq!(sorted(plan.get_fallback_chars()), vec![100]);
    let info = plan.get_fallback_info();
    assert_eq!(info.len(), 2);
    for (key, bits) in info {
        assert!(key == &vec!["alpha".to_string()] || key == &vec!["beta".to_string()]);
        assert_eq!(sorted(bits), vec![100]);
    }
}

#[test]
fn stack_list_serves_what_all_its_fonts_have() {
    let mut builder = SubsetDataBuilder::new();
    let lists = vec![vec![font(1, "Alpha", &[97, 98]), font(2, "Alpha", &[98, 99])]];
    assert!(builder.push_stack(set(&[97, 98, 99]), &lists).is_ok());
    let plan = builder.build();
    assert_eq!(sorted(&plan.get_used_chars(&font(1, "Alpha", &[97, 98]))), vec![98]);
    assert_eq!(sorted(&plan.get_used_chars(&font(2, "Alpha", &[98, 99]))), vec![98]);
    assert_eq!(sorted(plan.get_fallback_chars()), vec![97, 99]);
}

#[test]
fn stack_with_empty_list_fails() {
    let mut builder = SubsetDataBuilder::new();
    let lists = vec![vec![font(1, "Alpha", &[97])], vec![]];
    let r = builder.push_stack(set(&[97, 98]), &lists);
    assert_eq!(r, Err(EmptyFontList));
    assert_eq!(EmptyFontList.message(), "Fonts lists cannot be empty!");
    let plan = builder.build();
    // The first list has taken its part; nothing needs a fallback yet.
    assert_eq!(sorted(&plan.get_used_chars(&font(1, "Alpha", &[97]))), vec![97]);
    assert!(plan.get_fallback_chars().is_empty());
    assert!(plan.get_fallback_info().is_empty());
}

#[test]
fn exclusions_and_preloads() {
    let a = font(1, "Alpha", &[97, 98, 99]);
    let mut builder = SubsetDataBuilder::new();
    builder.push_all_subset(set(&[97, 98, 99, 100]));
    builder.push_exclusion(set(&[98]), &[font(1, "Alpha", &[])]);
    builder.push_all_exclusion(set(&[99]));
    builder.push_preload(set(&[97]), &[font(1, "Alpha", &[])]);
    let plan = builder.build();
    assert_eq!(sorted(&plan.get_used_chars(&a)), vec![97]);
    assert_eq!(sorted(&plan.get_preload_chars(&a)), vec![97]);
    let other = font(7, "Other", &[97, 100]);
    assert_eq!(sorted(&plan.get_used_chars(&other)), vec![97, 100]);
    assert!(plan.get_preload_chars(&other).is_empty());
}

#[test]
fn all_preload_applies_to_every_font() {
    let mut builder = SubsetDataBuilder::new();
    builder.push_all_subset(set(&[97, 98]));
    builder.push_all_preload(set(&[98]));
    let plan = builder.build();
    assert_eq!(sorted(&plan.get_preload_chars(&font(3, "X", &[97, 98]))), vec![98]);
}

#[test]
fn disabled_plan_serves_everything() {
    let plan = AssignedSubsets::disabled();
    let a = font(1, "Alpha", &[97, 98]);
    assert_eq!(sorted(&plan.get_used_chars(&a)), vec![97, 98]);
    assert_eq!(sorted(&plan.get_range_exclusion(&a)), vec![97, 98]);
    assert!(plan.get_preload_chars(&a).is_empty());
    assert!(plan.get_fallback_chars().is_empty());
}

#[test]
fn readability_of_range_lists() {
    assert!(readable_charset("#U+41-43, U+61"));
    assert!(!readable_charset("#U+41, x"));
    // A refused section before a broken one ends the reading with an error.
    assert!(readable_charset("#U+ZZ, x"));
    assert!(readable_charset("plain text, no ranges"));
    assert!(readable_charset("@file"));
}

#[test]
fn readability_of_specs() {
    assert!(readable_spec("Foo:#U+41"));
    assert!(!readable_spec("Foo:#U+41,bad"));
    assert!(!readable_spec("exclude:*:#bad"));
    assert!(readable_spec("no colon"));
    assert!(readable_spec("@list.txt"));
}

#[test]
fn font_list_names_are_trimmed() {
    assert_eq!(font_list_names("Foo, Bar ,Baz"), vec!["Foo".to_string(), "Bar".to_string(), "Baz".to_string()]);
    assert_eq!(font_list_names("Solo"), vec!["Solo".to_string()]);
}
