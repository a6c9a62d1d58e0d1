//! The Unicode general categories, in the order in which the Unicode Character Database lists
//! them (and in which the crates that carry its tables declare them), with their groups.
use vstd::prelude::*;

verus! {

/// A Unicode general category.
#[derive(Copy, Clone, Debug, PartialEq, Eq, Structural)]
pub enum GeneralCategory {
    UppercaseLetter,
    LowercaseLetter,
    TitlecaseLetter,
    ModifierLetter,
    OtherLetter,
    NonspacingMark,
    SpacingMark,
    EnclosingMark,
    DecimalNumber,
    LetterNumber,
    OtherNumber,
    ConnectorPunctuation,
    DashPunctuation,
    OpenPunctuation,
    ClosePunctuation,
    InitialPunctuation,
    FinalPunctuation,
    OtherPunctuation,
    MathSymbol,
    CurrencySymbol,
    ModifierSymbol,
    OtherSymbol,
    SpaceSeparator,
    LineSeparator,
    ParagraphSeparator,
    Control,
    Format,
    Surrogate,
    PrivateUse,
    Unassigned,
}

/// The categories in the order of their declaration.
pub open spec fn categories() -> Seq<GeneralCategory> {
    seq![
        GeneralCategory::UppercaseLetter,
        GeneralCategory::LowercaseLetter,
        GeneralCategory::TitlecaseLetter,
        GeneralCategory::ModifierLetter,
        GeneralCategory::OtherLetter,
        GeneralCategory::NonspacingMark,
        GeneralCategory::SpacingMark,
        GeneralCategory::EnclosingMark,
        GeneralCategory::DecimalNumber,
        GeneralCategory::LetterNumber,
        GeneralCategory::OtherNumber,
        GeneralCategory::ConnectorPunctuation,
        GeneralCategory::DashPunctuation,
        GeneralCategory::OpenPunctuation,
        GeneralCategory::ClosePunctuation,
        GeneralCategory::InitialPunctuation,
        GeneralCategory::FinalPunctuation,
        GeneralCategory::OtherPunctuation,
        GeneralCategory::MathSymbol,
        GeneralCategory::CurrencySymbol,
        GeneralCategory::ModifierSymbol,
        GeneralCategory::OtherSymbol,
        GeneralCategory::SpaceSeparator,
        GeneralCategory::LineSeparator,
        GeneralCategory::ParagraphSeparator,
        GeneralCategory::Control,
        GeneralCategory::Format,
        GeneralCategory::Surrogate,
        GeneralCategory::PrivateUse,
        GeneralCategory::Unassigned
    ]
}

/// The category declared at position `i`.
pub fn category_at(i: u8) -> (g: GeneralCategory)
    requires
        i < 30,
    ensures
        g == categories()[i as int],
{
    match i {
        0 => GeneralCategory::UppercaseLetter,
        1 => GeneralCategory::LowercaseLetter,
        2 => GeneralCategory::TitlecaseLetter,
        3 => GeneralCategory::ModifierLetter,
        4 => GeneralCategory::OtherLetter,
        5 => GeneralCategory::NonspacingMark,
        6 => GeneralCategory::SpacingMark,
        7 => GeneralCategory::EnclosingMark,
        8 => GeneralCategory::DecimalNumber,
        9 => GeneralCategory::LetterNumber,
        10 => GeneralCategory::OtherNumber,
        11 => GeneralCategory::ConnectorPunctuation,
        12 => GeneralCategory::DashPunctuation,
        13 => GeneralCategory::OpenPunctuation,
        14 => GeneralCategory::ClosePunctuation,
        15 => GeneralCategory::InitialPunctuation,
        16 => GeneralCategory::FinalPunctuation,
        17 => GeneralCategory::OtherPunctuation,
        18 => GeneralCategory::MathSymbol,
        19 => GeneralCategory::CurrencySymbol,
        20 => GeneralCategory::ModifierSymbol,
        21 => GeneralCategory::OtherSymbol,
        22 => GeneralCategory::SpaceSeparator,
        23 => GeneralCategory::LineSeparator,
        24 => GeneralCategory::ParagraphSeparator,
        25 => GeneralCategory::Control,
        26 => GeneralCategory::Format,
        27 => GeneralCategory::Surrogate,
        28 => GeneralCategory::PrivateUse,
        _ => GeneralCategory::Unassigned,
    }
}

impl GeneralCategory {
    /// A letter (`L`).
    pub open spec fn letter(self) -> bool {
        matches!(self, GeneralCategory::UppercaseLetter | GeneralCategory::LowercaseLetter | GeneralCategory::TitlecaseLetter | GeneralCategory::ModifierLetter | GeneralCategory::OtherLetter)
    }

    /// A number (`N`).
    pub open spec fn number(self) -> bool {
        matches!(self, GeneralCategory::DecimalNumber | GeneralCategory::LetterNumber | GeneralCategory::OtherNumber)
    }

    /// Punctuation (`P`).
    pub open spec fn punctuation(self) -> bool {
        matches!(self, GeneralCategory::ConnectorPunctuation | GeneralCategory::DashPunctuation | GeneralCategory::OpenPunctuation | GeneralCategory::ClosePunctuation | GeneralCategory::InitialPunctuation | GeneralCategory::FinalPunctuation | GeneralCategory::OtherPunctuation)
    }

    /// A symbol (`S`).
    pub open spec fn symbol(self) -> bool {
        matches!(self, GeneralCategory::MathSymbol | GeneralCategory::CurrencySymbol | GeneralCategory::ModifierSymbol | GeneralCategory::OtherSymbol)
    }

    /// Whether the category is a letter.
    pub fn is_letter(&self) -> (r: bool)
        ensures
            r == self.letter(),
    {
        matches!(*self, GeneralCategory::UppercaseLetter | GeneralCategory::LowercaseLetter | GeneralCategory::TitlecaseLetter | GeneralCategory::ModifierLetter | GeneralCategory::OtherLetter)
    }

    /// Whether the category is a number.
    pub fn is_number(&self) -> (r: bool)
        ensures
            r == self.number(),
    {
        matches!(*self, GeneralCategory::DecimalNumber | GeneralCategory::LetterNumber | GeneralCategory::OtherNumber)
    }

    /// Whether the category is punctuation.
    pub fn is_punctuation(&self) -> (r: bool)
        ensures
            r == self.punctuation(),
    {
        matches!(*self, GeneralCategory::ConnectorPunctuation | GeneralCategory::DashPunctuation | GeneralCategory::OpenPunctuation | GeneralCategory::ClosePunctuation | GeneralCategory::InitialPunctuation | GeneralCategory::FinalPunctuation | GeneralCategory::OtherPunctuation)
    }

    /// Whether the category is a symbol.
    pub fn is_symbol(&self) -> (r: bool)
        ensures
            r == self.symbol(),
    {
        matches!(*self, GeneralCategory::MathSymbol | GeneralCategory::CurrencySymbol | GeneralCategory::ModifierSymbol | GeneralCategory::OtherSymbol)
    }
}

} // verus!
