//! How the CSS rules that reach an element accumulate the values of one property.
use vstd::prelude::*;
use std::collections::HashSet;
use std::hash::Hash;
use vstd::std_specs::hash::obeys_key_model;
use vstd::std_specs::iter::IteratorSpec;

verus! {

broadcast use vstd::std_specs::hash::group_hash_axioms;

/// What a CSS rule says of one property.
pub enum ParsedCssRule<T> {
    /// The property is set to this value.
    Override(T),
    /// The property is set to a value that gives nothing.
    OverrideUnset,
    /// The property is inherited from the parent.
    Inherit,
    /// The property is set to something that is not tracked.
    IgnoreSet,
    /// The rule does not touch the property.
    NoneSet,
}

/// The font style an element can be rendered in.
#[derive(Copy, Clone, Debug, PartialEq, Eq, Structural, PartialOrd, Ord, Hash)]
pub enum ParsedFontStyle {
    Normal,
    Italic,
    Oblique,
}

/// Identifies a node of a parsed document.
#[derive(Copy, Clone, Debug, PartialEq, Eq, Structural, PartialOrd, Ord, Hash)]
pub struct NodeId(pub usize);

/// The values a property may take on an element, and whether they replace the inherited ones.
pub struct NodeProperty<T> {
    active: HashSet<T>,
    overwritten: bool,
}

/// The effect of one rule on the state `(values, overwritten)` of a property. A conditional rule
/// (one that may or may not apply) only adds values: it never clears them, and only
/// `OverrideUnset` marks the property as overwritten through it.
pub open spec fn push_rule<T>(
    state: (Set<T>, bool),
    rule: ParsedCssRule<T>,
    is_conditional: bool,
) -> (Set<T>, bool) {
    let (active, overwritten) = state;
    match rule {
        ParsedCssRule::Override(v) => (active.insert(v), overwritten || !is_conditional),
        ParsedCssRule::OverrideUnset => (if is_conditional { active } else { Set::empty() }, true),
        ParsedCssRule::Inherit => if is_conditional { (active, overwritten) } else { (Set::empty(), false) },
        ParsedCssRule::IgnoreSet => if is_conditional { (active, overwritten) } else { (Set::empty(), true) },
        ParsedCssRule::NoneSet => (active, overwritten),
    }
}

/// The values of an element's property after merging it into the inherited values, as
/// `push_property` does.
pub open spec fn merged_values<T>(inherited: Set<T>, st: (Set<T>, bool)) -> Set<T> {
    (if st.1 { Set::<T>::empty() } else { inherited }).union(st.0)
}

/// What the last unconditional rule of an element makes of its property, whatever came before:
/// `inherit` gives exactly the inherited values; a value that is unset or not tracked gives
/// none; a set value drops the inherited values and adds the value.
pub proof fn law_unconditional_rules<T>(st: (Set<T>, bool), inherited: Set<T>, v: T)
    ensures
        merged_values(inherited, push_rule(st, ParsedCssRule::Inherit, false)) == inherited,
        merged_values(inherited, push_rule(st, ParsedCssRule::OverrideUnset, false)) == Set::<T>::empty(),
        merged_values(inherited, push_rule(st, ParsedCssRule::IgnoreSet, false)) == Set::<T>::empty(),
        merged_values(inherited, push_rule(st, ParsedCssRule::Override(v), false)) == st.0.insert(v),
{
    assert(merged_values(inherited, push_rule(st, ParsedCssRule::Inherit, false)) =~= inherited);
    assert(merged_values(inherited, push_rule(st, ParsedCssRule::OverrideUnset, false)) =~= Set::<T>::empty());
    assert(merged_values(inherited, push_rule(st, ParsedCssRule::IgnoreSet, false)) =~= Set::<T>::empty());
    assert(merged_values(inherited, push_rule(st, ParsedCssRule::Override(v), false)) =~= st.0.insert(v));
}

/// A conditional rule that sets a value adds it to the values the property may take and keeps
/// the others, as a rule that may or may not apply must; a conditional `inherit` or untracked
/// value changes nothing, and a conditional unset keeps the values but stops inheritance.
pub proof fn law_conditional_rules<T>(st: (Set<T>, bool), v: T)
    ensures
        push_rule(st, ParsedCssRule::Override(v), true) == (st.0.insert(v), st.1),
        push_rule(st, ParsedCssRule::Inherit, true) == st,
        push_rule(st, ParsedCssRule::IgnoreSet, true) == st,
        push_rule(st, ParsedCssRule::OverrideUnset, true) == (st.0, true),
{
}

/// A conditional rule (one that may not apply) never removes a value, and only `OverrideUnset`
/// changes whether the property is overwritten through it; a rule that does not touch the
/// property leaves it as it was.
pub proof fn law_conditional_rule_only_adds<T>(state: (Set<T>, bool), rule: ParsedCssRule<T>, is_conditional: bool)
    ensures
        state.0.subset_of(push_rule(state, rule, true).0),
        push_rule(state, rule, true).1 == state.1 || rule is OverrideUnset,
        rule is NoneSet ==> push_rule(state, rule, is_conditional) == state,
{
}

impl<T: Copy + Hash + Eq> NodeProperty<T> {
    /// The values the property may take.
    pub closed spec fn active(&self) -> Set<T> {
        self.active@
    }

    /// Whether the values replace those inherited from the parent.
    pub closed spec fn overwritten(&self) -> bool {
        self.overwritten
    }

    /// A property that no rule has touched.
    pub fn new() -> (p: Self)
        ensures
            p.active() == Set::<T>::empty(),
            !p.overwritten(),
    {
        NodeProperty { active: HashSet::new(), overwritten: false }
    }

    /// Applies one rule to the property.
    pub fn push_node(&mut self, rule: &ParsedCssRule<T>, is_conditional: bool)
        requires
            obeys_key_model::<T>(),
        ensures
            (final(self).active(), final(self).overwritten())
                == push_rule((old(self).active(), old(self).overwritten()), *rule, is_conditional),
    {
        match rule {
            ParsedCssRule::Override(new) => {
                self.active.insert(*new);
                if !is_conditional {
                    self.overwritten = true;
                }
            },
            ParsedCssRule::OverrideUnset => {
                if !is_conditional {
                    self.active.clear();
                }
                self.overwritten = true;
            },
            ParsedCssRule::Inherit => {
                if !is_conditional {
                    self.active.clear();
                    self.overwritten = false;
                }
            },
            ParsedCssRule::IgnoreSet => {
                if !is_conditional {
                    self.active.clear();
                    self.overwritten = true;
                }
            },
            ParsedCssRule::NoneSet => {},
        }
    }

    /// The values, each once.
    pub fn values(&self) -> (v: Vec<T>)
        requires
            obeys_key_model::<T>(),
        ensures
            v@.to_set() == self.active(),
    {
        let mut v: Vec<T> = Vec::new();
        let ghost keys = vstd::std_specs::hash::spec_hash_keys_iter(&self.active).remaining().unref();
        proof {
            vstd::std_specs::hash::axiom_spec_hash_keys_iter(&self.active);
        }
        for x in it: self.active.iter()
            invariant
                it.seq().unref() == keys,
                v@ == keys.take(it.index()),
        {
            v.push(*x);
            assert(keys.take(it.index() + 1) == keys.take(it.index()).push(*x));
        }
        assert(keys.take(keys.len() as int) == keys);
        v
    }
}

/// Merges a property into the values resolved so far: an overwritten property first drops them.
pub fn push_property<T: Copy + Hash + Eq>(set: &mut HashSet<T>, props: &NodeProperty<T>)
    requires
        obeys_key_model::<T>(),
    ensures
        final(set)@ == (if props.overwritten() { Set::<T>::empty() } else { old(set)@ }).union(props.active()),
        final(set)@ == merged_values(old(set)@, (props.active(), props.overwritten())),
{
    if props.overwritten {
        set.clear();
    }
    let ghost start = set@;
    let items = props.values();
    let mut i: usize = 0;
    while i < items.len()
        invariant
            i <= items@.len(),
            obeys_key_model::<T>(),
            set@ == start.union(items@.take(i as int).to_set()),
        decreases items@.len() - i,
    {
        set.insert(items[i]);
        proof {
            crate::sort::lemma_push_to_set(items@.take(i as int), items@[i as int]);
            assert(items@.take(i + 1) == items@.take(i as int).push(items@[i as int]));
            assert(set@ =~= start.union(items@.take(i + 1).to_set()));
        }
        i = i + 1;
    }
    assert(items@.take(items@.len() as int) == items@);
}

} // verus!
