use mkwebfont::splitter_plan::{FontFamilyConfig, FontFlagSet, FontFlags, SplitterPlan, SubsetPlan};

fn names(v: &[&str]) -> Vec<String> {
    v.iter().map(|s| s.to_string()).collect()
}

#[test]
fn family_selection() {
    assert!(FontFamilyConfig::AllFonts.check_font("Noto Sans"));
    let only = FontFamilyConfig::Whitelist(names(&["Noto Sans", "Inter"]));
    assert!(only.check_font("Inter"));
    assert!(!only.check_font("Roboto"));
    let but = FontFamilyConfig::Blacklist(names(&["Noto Sans"]));
    assert!(!but.check_font("Noto Sans"));
    assert!(but.check_font("noto sans"));
}

#[test]
fn flag_set_switches() {
    let mut f = FontFlagSet::new();
    assert!(!f.contains(FontFlags::NoSplitter));
    f.insert(FontFlags::NoSplitter);
    f.insert(FontFlags::NoSplitter);
    assert!(f.contains(FontFlags::NoSplitter));
    assert!(!f.contains(FontFlags::GfontsSplitter));
}

#[test]
fn splitter_plan_builds() {
    let mut plan = SplitterPlan::new();
    plan.whitelist_fonts(names(&["Inter"])).gfonts_splitter().print_report();
    plan.subset_spec("@abc").subset_spec("*:U+41");
    let loaded = plan.build();
    assert!(loaded.0.flags.contains(FontFlags::GfontsSplitter));
    assert!(loaded.0.flags.contains(FontFlags::PrintReport));
    assert!(!loaded.0.flags.contains(FontFlags::NoSplitter));
    assert!(!loaded.0.flags.contains(FontFlags::DoSubsetting));
    assert_eq!(loaded.0.subset_specs, names(&["@abc", "*:U+41"]));
    assert!(loaded.0.family_config.check_font("Inter"));
    assert!(!loaded.0.family_config.check_font("Roboto"));
}

#[test]
fn splitter_plan_other_switches() {
    let mut plan = SplitterPlan::new();
    plan.blacklist_fonts(names(&["Roboto"])).no_splitter().adjacency_splitter().subset();
    let loaded = plan.build();
    assert!(loaded.0.flags.contains(FontFlags::NoSplitter));
    assert!(loaded.0.flags.contains(FontFlags::AdjacencySplitter));
    assert!(loaded.0.flags.contains(FontFlags::DoSubsetting));
    assert!(loaded.0.subset_specs.is_empty());
    assert!(!loaded.0.family_config.check_font("Roboto"));
    assert!(loaded.0.family_config.check_font("Inter"));
}

#[test]
fn subset_plan_preloads() {
    let mut plan = SubsetPlan::new();
    plan.preload_chars(&['a', 'b', 'a']).preload_chars(&['\u{4e00}']);
    plan.blacklist_fonts(names(&["Roboto"]));
    let loaded = plan.build();
    let got: Vec<u32> = loaded.0.preload.iter().collect();
    assert_eq!(got, vec![0x61, 0x62, 0x4e00]);
    assert!(!loaded.0.family_config.check_font("Roboto"));
}

#[test]
fn subset_plan_defaults() {
    let loaded = SubsetPlan::new().build();
    assert!(loaded.0.preload.is_empty());
    assert!(loaded.0.family_config.check_font("Anything"));
}
