use mkwebfont::apply_rules::{push_property, NodeProperty, ParsedCssRule, ParsedFontStyle};
use std::collections::HashSet;

fn values(p: &NodeProperty<i32>) -> Vec<i32> {
    let mut v = p.values();
    v.sort();
    v
}

#[test]
fn overrides_accumulate() {
    let mut p = NodeProperty::<i32>::new();
    p.push_node(&ParsedCssRule::Override(400), false);
    p.push_node(&ParsedCssRule::Override(700), true);
    assert_eq!(values(&p), vec![400, 700]);
}

#[test]
fn unconditional_rules_clear() {
    let mut p = NodeProperty::<i32>::new();
    p.push_node(&ParsedCssRule::Override(400), false);
    p.push_node(&ParsedCssRule::IgnoreSet, true);
    assert_eq!(values(&p), vec![400]);
    p.push_node(&ParsedCssRule::OverrideUnset, false);
    assert!(values(&p).is_empty());
    p.push_node(&ParsedCssRule::Override(100), false);
    p.push_node(&ParsedCssRule::Inherit, false);
    assert!(values(&p).is_empty());
    p.push_node(&ParsedCssRule::NoneSet, false);
    assert!(values(&p).is_empty());
}

#[test]
fn overwritten_property_replaces_inherited_values() {
    let mut inherited: HashSet<i32> = [300, 500].into_iter().collect();
    let mut p = NodeProperty::<i32>::new();
    p.push_node(&ParsedCssRule::Override(900), false);
    push_property(&mut inherited, &p);
    assert_eq!(inherited, [900].into_iter().collect());
}

#[test]
fn conditional_values_add_to_inherited() {
    let mut inherited: HashSet<ParsedFontStyle> = [ParsedFontStyle::Normal].into_iter().collect();
    let mut p = NodeProperty::<ParsedFontStyle>::new();
    p.push_node(&ParsedCssRule::Override(ParsedFontStyle::Italic), true);
    push_property(&mut inherited, &p);
    assert_eq!(inherited, [ParsedFontStyle::Normal, ParsedFontStyle::Italic].into_iter().collect());
}
