use mkwebfont::gfsubsets::{
    cjk_tag, gf_data_text, merge_classes, parse_css_poorly, readable_css, sort_classes, CodepointTable, GfSubset,
    GfSubsetGroup,
};
use roaring::RoaringBitmap;

fn bitmap(values: &[u32]) -> RoaringBitmap {
    let mut b = RoaringBitmap::new();
    for &v in values {
        b.insert(v);
    }
    b
}

fn table_entries(t: CodepointTable) -> Vec<(String, Vec<u32>)> {
    let mut v: Vec<_> = t.into_entries().into_iter().map(|(k, b)| (k, b.iter().collect::<Vec<_>>())).collect();
    v.sort();
    v
}

#[test]
fn tags_of_single_scripts() {
    let s = |v: &[&str]| v.iter().map(|x| x.to_string()).collect::<Vec<_>>();
    assert_eq!(cjk_tag(&s(&["latin", "korean"])), "kr");
    assert_eq!(cjk_tag(&s(&["japanese"])), "jp");
    assert_eq!(cjk_tag(&s(&["chinese-simplified", "latin"])), "zhsimp");
    assert_eq!(cjk_tag(&s(&["chinese-traditional"])), "zhtrad");
    assert_eq!(cjk_tag(&s(&["chinese-hongkong"])), "zhhk");
    assert_eq!(cjk_tag(&s(&["emoji"])), "emoji");
    assert_eq!(cjk_tag(&s(&["latin"])), "unk");
    assert_eq!(cjk_tag(&s(&["korean", "japanese"])), "unk");
}

#[test]
fn parses_named_ranges() {
    let css = "/* latin */\n@font-face {\n  unicode-range: U+0000-00FF, U+0131, U+2000-2002;\n}\n/* [3] */\n  unicode-range: U+4E00-4E01;\n";
    let table = match parse_css_poorly(css, "kr") {
        Ok(t) => t,
        Err(_) => panic!("parse failed"),
    };
    let entries = table_entries(table);
    let mut latin: Vec<u32> = (0..=0xFF).collect();
    latin.push(0x131);
    latin.extend([0x2000, 0x2001, 0x2002]);
    assert_eq!(entries, vec![
        ("group-kr-s3".to_string(), vec![0x4E00, 0x4E01]),
        ("latin".to_string(), latin),
    ]);
}

#[test]
fn bad_hex_number_fails() {
    assert!(parse_css_poorly("/* x */\nunicode-range: U+ZZ;\n", "unk").is_err());
    assert!(parse_css_poorly("/* x */\nunicode-range: U+1-FFFFFFFFF;\n", "unk").is_err());
}

#[test]
fn later_ranges_replace_earlier_ones() {
    let css = "/* a */\nunicode-range: U+41;\n/* a */\nunicode-range: U+42;";
    let entries = table_entries(parse_css_poorly(css, "unk").ok().unwrap());
    assert_eq!(entries, vec![("a".to_string(), vec![0x42])]);
}

#[test]
fn merging_joins_classes() {
    let mut all = CodepointTable::new();
    all.put("a".to_string(), bitmap(&[1]), false);
    let mut other = CodepointTable::new();
    other.put("a".to_string(), bitmap(&[2]), false);
    other.put("b".to_string(), bitmap(&[3]), false);
    merge_classes(&mut all, other);
    assert_eq!(table_entries(all), vec![("a".to_string(), vec![1, 2]), ("b".to_string(), vec![3])]);
}

#[test]
fn sorting_into_groups() {
    let mut t = CodepointTable::new();
    t.put("latin".to_string(), bitmap(&[0x41, 0x42]), false);
    t.put("group-kr-s10".to_string(), bitmap(&[0xAC00]), false);
    t.put("cyrillic".to_string(), bitmap(&[0x400]), false);
    t.put("group-jp-s2".to_string(), bitmap(&[0x3042, 0x3044]), false);
    t.put("group-kr-s1".to_string(), bitmap(&[0xAC01]), false);
    let (plain, groups) = sort_classes(t);
    let plain_names: Vec<_> = plain.iter().map(|s| s.name.clone()).collect();
    assert_eq!(plain_names, vec!["cyrillic", "latin"]);
    assert_eq!(plain[1].ranges, vec!['A'..='B']);
    let group_names: Vec<_> = groups.iter().map(|g| g.name.clone()).collect();
    assert_eq!(group_names, vec!["jp", "kr"]);
    let kr: Vec<_> = groups[1].subsets.iter().map(|s| s.name.clone()).collect();
    assert_eq!(kr, vec!["kr1", "kr10"]);
    assert_eq!(groups[0].subsets[0].name, "jp2");
    assert_eq!(groups[0].subsets[0].ranges, vec!['\u{3042}'..='\u{3042}', '\u{3044}'..='\u{3044}']);
}

#[test]
fn css_readability() {
    assert!(readable_css("/* latin */\nunicode-range: U+0041-0043, U+0061;\n", "unk"));
    // A range list without a class before it stops the reader.
    assert!(!readable_css("unicode-range: U+0041;\n", "unk"));
    // An entry without `U+` stops the reader, unless a bad number comes first.
    assert!(!readable_css("/* a */\nunicode-range: 0041;\n", "unk"));
    assert!(readable_css("/* a */\nunicode-range: U+ZZ, 0041;\n", "unk"));
    // Two dashes stop the reader.
    assert!(!readable_css("/* a */\nunicode-range: U+41-42-43;\n", "unk"));
}

#[test]
fn decodable_tables() {
    let mut t = CodepointTable::new();
    t.put("a".to_string(), bitmap(&[0x41, 0x42]), false);
    assert!(t.all_decodable());
    t.put("b".to_string(), bitmap(&[0xD800]), false);
    assert!(!t.all_decodable());
    let mut u = CodepointTable::new();
    u.put("c".to_string(), bitmap(&[0xD7FF, 0xE000]), false);
    assert!(!u.all_decodable());
    let mut w = CodepointTable::new();
    w.put("d".to_string(), bitmap(&[0xD7FE, 0xD7FF]), false);
    assert!(w.all_decodable());
}

#[test]
fn data_file_text() {
    let subsets = vec![GfSubset { name: "latin".to_string(), ranges: vec!['A'..='C', 'x'..='x'] }];
    let groups = vec![GfSubsetGroup {
        name: "kr".to_string(),
        subsets: vec![GfSubset { name: "kr-1".to_string(), ranges: vec!['\''..='\'', ' '..=' ', '\u{7f}'..='\u{80}'] }],
    }];
    let text = gf_data_text(&subsets, &groups);
    let expected = "const DATA: GfSubsets = GfSubsets {\n".to_string()
        + "    subsets: &[\n"
        + "// -- start 1 ranges --\n"
        + "GfSubset{name:\"latin\",ranges:&['A'..='C',o('x'),],},\n"
        + "// -- end 1 ranges --\n"
        + "    ],\n"
        + "    subset_groups: &[\n"
        + "        GfSubsetGroup {\n"
        + "            name: \"kr\",\n"
        + "            subsets: &[\n"
        + "// -- start 1 ranges --\n"
        + "GfSubset{name:\"kr-1\",ranges:&[o('\\''),o(' '),'\\u{7f}'..='\\u{80}',],},\n"
        + "// -- end 1 ranges --\n"
        + "            ],\n"
        + "        },\n"
        + "    ],\n"
        + "};\n"
        + "impl GfSubsets {\n"
        + "    pub const DATA: GfSubsets = DATA;\n"
        + "}\n";
    assert_eq!(text, expected);
}
