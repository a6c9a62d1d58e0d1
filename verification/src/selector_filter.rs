//! Reshaping a CSS selector for matching against a static document: the components that depend
//! on user interaction make the rule conditional, a pseudo-element is taken out, and between two
//! combinators the components naming the element go before the others.
use vstd::prelude::*;

verus! {

/// A component of a selector, in parse order. The payload ids name the component's text, which
/// the caller keeps.
#[derive(Copy, Clone, Debug, PartialEq, Eq, Structural)]
pub enum SelectorComponent {
    /// `:has(..)`, only partly supported: the rule becomes conditional.
    Has,
    /// `:scope`, not supported.
    Scope,
    /// `::slotted`, `::part`, `:host`, `:any` or `&`, not supported.
    Unsupported,
    /// A combinator.
    Combinator(u32),
    /// A pseudo-class, which a static document cannot decide: the rule becomes conditional.
    PseudoClass,
    /// A pseudo-element.
    PseudoElement(u32),
    /// A component that names the element: a namespace, a type, `*` or `:root`.
    Early(u32),
    /// Any other simple component: an id, a class, an attribute test, `:empty` or `:nth-..`.
    Late(u32),
    /// `:not`, `:where` or `:is` over `members` inner selectors (filtered on their own); each of
    /// them makes the rule conditional.
    Group(u32, usize),
}

/// Why a selector is refused.
#[derive(Copy, Clone, Debug, PartialEq, Eq, Structural)]
pub enum SelectorError {
    ScopeUnsupported,
    ComponentUnsupported,
    TwoPseudoElements,
}

/// A reshaped selector: its components, whether the rule is conditional, and its
/// pseudo-element.
pub struct FilteredSelector {
    pub components: Vec<SelectorComponent>,
    pub is_conditional: bool,
    pub pseudo_element: Option<u32>,
}

/// The state of the reshaping: the components placed, those naming the element and the others
/// since the last combinator, whether the rule is conditional, and the pseudo-element.
pub type FilterState = (Seq<SelectorComponent>, Seq<SelectorComponent>, Seq<SelectorComponent>, bool, Option<u32>);

/// One component's effect on the state.
pub open spec fn filter_step(st: FilterState, c: SelectorComponent) -> Result<FilterState, SelectorError> {
    let (out, early, late, cond, pseudo) = st;
    match c {
        SelectorComponent::Has => Ok((out, early, late, true, pseudo)),
        SelectorComponent::Scope => Err(SelectorError::ScopeUnsupported),
        SelectorComponent::Unsupported => Err(SelectorError::ComponentUnsupported),
        SelectorComponent::Combinator(_) => Ok((out + early + late + seq![c], Seq::empty(), Seq::empty(), cond, pseudo)),
        SelectorComponent::PseudoClass => Ok((out, early, late, true, pseudo)),
        SelectorComponent::PseudoElement(e) => if pseudo is Some {
            Err(SelectorError::TwoPseudoElements)
        } else {
            Ok((out, early, late, cond, Some(e)))
        },
        SelectorComponent::Early(_) => Ok((out, early.push(c), late, cond, pseudo)),
        SelectorComponent::Late(_) => Ok((out, early, late.push(c), cond, pseudo)),
        SelectorComponent::Group(_, n) => Ok((out, early, late.push(c), cond || n > 0, pseudo)),
    }
}

/// The state after the components, or the first refusal.
pub open spec fn filter_state(parts: Seq<SelectorComponent>) -> Result<FilterState, SelectorError>
    decreases parts.len(),
{
    if parts.len() == 0 {
        Ok((Seq::empty(), Seq::empty(), Seq::empty(), false, None))
    } else {
        match filter_state(parts.drop_last()) {
            Ok(st) => filter_step(st, parts.last()),
            Err(e) => Err(e),
        }
    }
}

/// The reshaped selector: components, conditional, pseudo-element.
pub open spec fn filtered(parts: Seq<SelectorComponent>) -> Result<(Seq<SelectorComponent>, bool, Option<u32>), SelectorError> {
    match filter_state(parts) {
        Ok((out, early, late, cond, pseudo)) => Ok((out + early + late, cond, pseudo)),
        Err(e) => Err(e),
    }
}

/// Appends `b` to `a`.
fn append(a: &mut Vec<SelectorComponent>, b: &Vec<SelectorComponent>)
    ensures
        final(a)@ == old(a)@ + b@,
{
    let mut i: usize = 0;
    while i < b.len()
        invariant
            i <= b@.len(),
            a@ == old(a)@ + b@.take(i as int),
        decreases b@.len() - i,
    {
        a.push(b[i]);
        assert(b@.take(i + 1) =~= b@.take(i as int).push(b@[i as int]));
        assert(a@ =~= old(a)@ + b@.take(i + 1));
        i = i + 1;
    }
    assert(b@.take(b@.len() as int) =~= b@);
}

/// Reshapes a selector (see `filtered`).
pub fn filter_selector(parts: &Vec<SelectorComponent>) -> (r: Result<FilteredSelector, SelectorError>)
    ensures
        match (r, filtered(parts@)) {
            (Ok(f), Ok((c, cond, p))) => f.components@ == c && f.is_conditional == cond && f.pseudo_element == p,
            (Err(e), Err(e2)) => e == e2,
            _ => false,
        },
{
    let mut out: Vec<SelectorComponent> = Vec::new();
    let mut early: Vec<SelectorComponent> = Vec::new();
    let mut late: Vec<SelectorComponent> = Vec::new();
    let mut cond = false;
    let mut pseudo: Option<u32> = None;
    let mut i: usize = 0;
    while i < parts.len()
        invariant
            i <= parts@.len(),
            filter_state(parts@.take(i as int)) == Ok::<FilterState, SelectorError>((out@, early@, late@, cond, pseudo)),
        decreases parts@.len() - i,
    {
        let c = parts[i];
        proof {
            assert(parts@.take(i + 1).drop_last() =~= parts@.take(i as int));
            assert(parts@.take(i + 1).last() == c);
        }
        match c {
            SelectorComponent::Has => {
                cond = true;
            },
            SelectorComponent::Scope => {
                proof { lemma_error_stays(parts@, (i + 1) as nat); }
                return Err(SelectorError::ScopeUnsupported);
            },
            SelectorComponent::Unsupported => {
                proof { lemma_error_stays(parts@, (i + 1) as nat); }
                return Err(SelectorError::ComponentUnsupported);
            },
            SelectorComponent::Combinator(_) => {
                let ghost before = (out@, early@, late@);
                append(&mut out, &early);
                append(&mut out, &late);
                out.push(c);
                early = Vec::new();
                late = Vec::new();
                assert(out@ =~= before.0 + before.1 + before.2 + seq![c]);
                assert(early@ =~= Seq::<SelectorComponent>::empty());
                assert(late@ =~= Seq::<SelectorComponent>::empty());
            },
            SelectorComponent::PseudoClass => {
                cond = true;
            },
            SelectorComponent::PseudoElement(e) => {
                if pseudo.is_some() {
                    proof { lemma_error_stays(parts@, (i + 1) as nat); }
                    return Err(SelectorError::TwoPseudoElements);
                }
                pseudo = Some(e);
            },
            SelectorComponent::Early(_) => {
                early.push(c);
            },
            SelectorComponent::Late(_) => {
                late.push(c);
            },
            SelectorComponent::Group(_, n) => {
                late.push(c);
                if n > 0 {
                    cond = true;
                }
            },
        }
        i = i + 1;
    }
    assert(parts@.take(parts@.len() as int) =~= parts@);
    let ghost st = (out@, early@, late@);
    append(&mut out, &early);
    append(&mut out, &late);
    assert(out@ =~= st.0 + st.1 + st.2);
    Ok(FilteredSelector { components: out, is_conditional: cond, pseudo_element: pseudo })
}

/// A refusal found among the first `k` components is the result for the whole selector.
proof fn lemma_error_stays(parts: Seq<SelectorComponent>, k: nat)
    requires
        k <= parts.len(),
        filter_state(parts.take(k as int)) is Err,
    ensures
        filter_state(parts) == filter_state(parts.take(k as int)),
    decreases parts.len() - k,
{
    if k < parts.len() {
        assert(parts.take(k + 1 as int).drop_last() =~= parts.take(k as int));
        lemma_error_stays(parts, (k + 1) as nat);
    } else {
        assert(parts.take(k as int) =~= parts);
    }
}

} // verus!
