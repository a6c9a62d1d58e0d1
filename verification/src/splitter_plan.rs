//! The configurations of a run: which font families are processed, which splitter and options
//! are switched on, the subset specifications, and the characters to preload.
use vstd::prelude::*;
use std::sync::Arc;
use roaring::RoaringBitmap;
use crate::roaring_bitmap::{roaring_contents, roaring_new, roaring_insert, roaring_clone};
use crate::text::char_code;
use crate::order::{string_views, copy_strings};

verus! {

/// Whether `name` is one of the strings of `list`.
fn list_contains(list: &Vec<String>, name: &String) -> (r: bool)
    ensures
        r == string_views(list@).contains(name@),
{
    let ghost views = string_views(list@);
    let mut i: usize = 0;
    while i < list.len()
        invariant
            i <= list@.len(),
            views == string_views(list@),
            forall|k: int| 0 <= k < i ==> views[k] != name@,
        decreases list@.len() - i,
    {
        if list[i] == *name {
            assert(views[i as int] == name@);
            return true;
        }
        assert(views[i as int] != name@);
        i = i + 1;
    }
    false
}

/// Which font families a run processes.
pub enum FontFamilyConfig {
    /// Every family.
    AllFonts,
    /// Only the listed families.
    Whitelist(Vec<String>),
    /// Every family but the listed ones.
    Blacklist(Vec<String>),
}

impl FontFamilyConfig {
    /// The selection: `None` for every family; else whether the listed families are the only
    /// ones processed (`true`) or the ones left out (`false`), and the set of listed families.
    pub open spec fn selection(&self) -> Option<(bool, Set<Seq<char>>)> {
        match self {
            FontFamilyConfig::AllFonts => None,
            FontFamilyConfig::Whitelist(list) => Some((true, string_views(list@).to_set())),
            FontFamilyConfig::Blacklist(list) => Some((false, string_views(list@).to_set())),
        }
    }

    /// Whether a font of the family `family` is processed.
    pub open spec fn admits(&self, family: Seq<char>) -> bool {
        match self.selection() {
            None => true,
            Some((only, names)) => names.contains(family) == only,
        }
    }

    /// Whether a font whose family is `font_family` is processed.
    pub fn check_font(&self, font_family: &str) -> (r: bool)
        ensures
            r == self.admits(font_family@),
    {
        let name = font_family.to_owned();
        match self {
            FontFamilyConfig::AllFonts => true,
            FontFamilyConfig::Whitelist(list) => list_contains(list, &name),
            FontFamilyConfig::Blacklist(list) => !list_contains(list, &name),
        }
    }
}

/// A copy of a family configuration.
fn copy_config(c: &FontFamilyConfig) -> (r: FontFamilyConfig)
    ensures
        r.selection() == c.selection(),
{
    match c {
        FontFamilyConfig::AllFonts => FontFamilyConfig::AllFonts,
        FontFamilyConfig::Whitelist(list) => FontFamilyConfig::Whitelist(copy_strings(list)),
        FontFamilyConfig::Blacklist(list) => FontFamilyConfig::Blacklist(copy_strings(list)),
    }
}

/// The options of a splitting run.
#[derive(Copy, Clone, Debug, PartialEq, Eq, Structural)]
pub enum FontFlags {
    PrintReport,
    NoSplitter,
    GfontsSplitter,
    AdjacencySplitter,
    DoSubsetting,
}

/// A set of options, one switch for each.
#[derive(Copy, Clone, Debug)]
pub struct FontFlagSet {
    print_report: bool,
    no_splitter: bool,
    gfonts_splitter: bool,
    adjacency_splitter: bool,
    do_subsetting: bool,
}

impl FontFlagSet {
    /// The options that are switched on.
    pub closed spec fn view(&self) -> Set<FontFlags> {
        Set::new(|f: FontFlags| match f {
            FontFlags::PrintReport => self.print_report,
            FontFlags::NoSplitter => self.no_splitter,
            FontFlags::GfontsSplitter => self.gfonts_splitter,
            FontFlags::AdjacencySplitter => self.adjacency_splitter,
            FontFlags::DoSubsetting => self.do_subsetting,
        })
    }

    /// No option is switched on.
    pub fn new() -> (s: Self)
        ensures
            s@ == Set::<FontFlags>::empty(),
    {
        let s = FontFlagSet {
            print_report: false,
            no_splitter: false,
            gfonts_splitter: false,
            adjacency_splitter: false,
            do_subsetting: false,
        };
        assert(s@ =~= Set::<FontFlags>::empty());
        s
    }

    /// Switches `flag` on.
    pub fn insert(&mut self, flag: FontFlags)
        ensures
            final(self)@ == old(self)@.insert(flag),
    {
        match flag {
            FontFlags::PrintReport => self.print_report = true,
            FontFlags::NoSplitter => self.no_splitter = true,
            FontFlags::GfontsSplitter => self.gfonts_splitter = true,
            FontFlags::AdjacencySplitter => self.adjacency_splitter = true,
            FontFlags::DoSubsetting => self.do_subsetting = true,
        }
        assert(self@ =~= old(self)@.insert(flag));
    }

    /// Whether `flag` is switched on.
    pub fn contains(&self, flag: FontFlags) -> (r: bool)
        ensures
            r == self@.contains(flag),
    {
        match flag {
            FontFlags::PrintReport => self.print_report,
            FontFlags::NoSplitter => self.no_splitter,
            FontFlags::GfontsSplitter => self.gfonts_splitter,
            FontFlags::AdjacencySplitter => self.adjacency_splitter,
            FontFlags::DoSubsetting => self.do_subsetting,
        }
    }
}

/// A finished splitting configuration.
pub struct SplitterPlanData {
    pub family_config: FontFamilyConfig,
    pub flags: FontFlagSet,
    pub subset_specs: Vec<String>,
}

/// A finished splitting configuration, shared.
pub struct LoadedSplitterPlan(pub Arc<SplitterPlanData>);

/// A splitting configuration being put together.
pub struct SplitterPlan {
    family_config: FontFamilyConfig,
    flags: FontFlagSet,
    subset_specs: Vec<String>,
}

impl SplitterPlan {
    /// Which font families are processed.
    pub closed spec fn config(&self) -> FontFamilyConfig {
        self.family_config
    }

    /// The options switched on.
    pub closed spec fn flag_set(&self) -> Set<FontFlags> {
        self.flags@
    }

    /// The subset specifications, in the order they were added.
    pub closed spec fn specs(&self) -> Seq<Seq<char>> {
        string_views(self.subset_specs@)
    }

    /// Every family, no option, no subset specification.
    pub fn new() -> (p: Self)
        ensures
            p.config().selection() is None,
            p.flag_set() == Set::<FontFlags>::empty(),
            p.specs() == Seq::<Seq<char>>::empty(),
    {
        let p = SplitterPlan { family_config: FontFamilyConfig::AllFonts, flags: FontFlagSet::new(), subset_specs: Vec::new() };
        assert(p.specs() =~= Seq::<Seq<char>>::empty());
        p
    }

    /// Processes only the families of `fonts`. The family selection may be set once only.
    pub fn whitelist_fonts(&mut self, fonts: Vec<String>) -> (r: &mut Self)
        requires
            old(self).config().selection() is None,
        ensures
            r.config().selection() == Some((true, string_views(fonts@).to_set())),
            r.flag_set() == old(self).flag_set(),
            r.specs() == old(self).specs(),
            *final(self) == *final(r),
    {
        self.family_config = FontFamilyConfig::Whitelist(fonts);
        self
    }

    /// Processes every family but those of `fonts`. The family selection may be set once only.
    pub fn blacklist_fonts(&mut self, fonts: Vec<String>) -> (r: &mut Self)
        requires
            old(self).config().selection() is None,
        ensures
            r.config().selection() == Some((false, string_views(fonts@).to_set())),
            r.flag_set() == old(self).flag_set(),
            r.specs() == old(self).specs(),
            *final(self) == *final(r),
    {
        self.family_config = FontFamilyConfig::Blacklist(fonts);
        self
    }

    /// Switches one option on.
    fn set_flag(&mut self, flag: FontFlags)
        ensures
            final(self).config() == old(self).config(),
            final(self).flag_set() == old(self).flag_set().insert(flag),
            final(self).specs() == old(self).specs(),
    {
        let mut flags = self.flags;
        flags.insert(flag);
        self.flags = flags;
    }

    /// Prints a report of the download size the fonts take on average.
    pub fn print_report(&mut self) -> (r: &mut Self)
        ensures
            r.config() == old(self).config(),
            r.flag_set() == old(self).flag_set().insert(FontFlags::PrintReport),
            r.specs() == old(self).specs(),
            *final(self) == *final(r),
    {
        self.set_flag(FontFlags::PrintReport);
        self
    }

    /// Keeps each font whole.
    pub fn no_splitter(&mut self) -> (r: &mut Self)
        ensures
            r.config() == old(self).config(),
            r.flag_set() == old(self).flag_set().insert(FontFlags::NoSplitter),
            r.specs() == old(self).specs(),
            *final(self) == *final(r),
    {
        self.set_flag(FontFlags::NoSplitter);
        self
    }

    /// Splits along the Google Fonts subsets.
    pub fn gfonts_splitter(&mut self) -> (r: &mut Self)
        ensures
            r.config() == old(self).config(),
            r.flag_set() == old(self).flag_set().insert(FontFlags::GfontsSplitter),
            r.specs() == old(self).specs(),
            *final(self) == *final(r),
    {
        self.set_flag(FontFlags::GfontsSplitter);
        self
    }

    /// Splits by how often code points occur together.
    pub fn adjacency_splitter(&mut self) -> (r: &mut Self)
        ensures
            r.config() == old(self).config(),
            r.flag_set() == old(self).flag_set().insert(FontFlags::AdjacencySplitter),
            r.specs() == old(self).specs(),
            *final(self) == *final(r),
    {
        self.set_flag(FontFlags::AdjacencySplitter);
        self
    }

    /// Enables subsetting.
    pub fn subset(&mut self) -> (r: &mut Self)
        ensures
            r.config() == old(self).config(),
            r.flag_set() == old(self).flag_set().insert(FontFlags::DoSubsetting),
            r.specs() == old(self).specs(),
            *final(self) == *final(r),
    {
        self.set_flag(FontFlags::DoSubsetting);
        self
    }

    /// Adds a subset specification.
    pub fn subset_spec(&mut self, spec: &str) -> (r: &mut Self)
        ensures
            r.config() == old(self).config(),
            r.flag_set() == old(self).flag_set(),
            r.specs() == old(self).specs().push(spec@),
            *final(self) == *final(r),
    {
        let s = spec.to_owned();
        let ghost before = self.subset_specs@;
        self.subset_specs.push(s);
        assert(self.subset_specs@ == before.push(s));
        assert(string_views(self.subset_specs@) =~= string_views(before).push(spec@));
        self
    }

    /// The finished configuration.
    pub fn build(&self) -> (l: LoadedSplitterPlan)
        ensures
            l.0.family_config.selection() == self.config().selection(),
            l.0.flags@ == self.flag_set(),
            string_views(l.0.subset_specs@) == self.specs(),
    {
        LoadedSplitterPlan(Arc::new(SplitterPlanData {
            family_config: copy_config(&self.family_config),
            flags: self.flags,
            subset_specs: copy_strings(&self.subset_specs),
        }))
    }
}

/// A finished subsetting configuration.
pub struct SubsetPlanData {
    pub preload: RoaringBitmap,
    pub family_config: FontFamilyConfig,
}

/// A finished subsetting configuration, shared.
pub struct LoadedSubsetPlan(pub Arc<SubsetPlanData>);

/// A subsetting configuration being put together.
pub struct SubsetPlan {
    preload: RoaringBitmap,
    family_config: FontFamilyConfig,
}

impl SubsetPlan {
    /// The code points preloaded with the basic latin characters.
    pub closed spec fn preload_set(&self) -> Set<u32> {
        roaring_contents(self.preload)
    }

    /// Which font families are processed.
    pub closed spec fn config(&self) -> FontFamilyConfig {
        self.family_config
    }

    /// Nothing preloaded, every family.
    pub fn new() -> (p: Self)
        ensures
            p.preload_set() == Set::<u32>::empty(),
            p.config().selection() is None,
    {
        SubsetPlan { preload: roaring_new(), family_config: FontFamilyConfig::AllFonts }
    }

    /// Adds characters to be served with the basic latin characters, such as those of the common
    /// elements of a site's pages.
    pub fn preload_chars(&mut self, chars: &[char]) -> (r: &mut Self)
        ensures
            r.preload_set() == old(self).preload_set().union(chars@.map_values(|c: char| c as u32).to_set()),
            r.config() == old(self).config(),
            *final(self) == *final(r),
    {
        let ghost start = self.preload_set();
        let ghost codes = chars@.map_values(|c: char| c as u32);
        let mut i: usize = 0;
        while i < chars.len()
            invariant
                i <= chars@.len(),
                codes == chars@.map_values(|c: char| c as u32),
                roaring_contents(self.preload) == start.union(codes.take(i as int).to_set()),
                self.family_config == old(self).family_config,
            decreases chars@.len() - i,
        {
            let v = char_code(chars[i]);
            roaring_insert(&mut self.preload, v);
            proof {
                crate::sort::lemma_push_to_set(codes.take(i as int), codes[i as int]);
                assert(codes.take(i + 1) =~= codes.take(i as int).push(codes[i as int]));
                assert(roaring_contents(self.preload) =~= start.union(codes.take(i + 1).to_set()));
            }
            i = i + 1;
        }
        assert(codes.take(chars@.len() as int) =~= codes);
        self
    }

    /// Processes only the families of `fonts`. The family selection may be set once only.
    pub fn whitelist_fonts(&mut self, fonts: Vec<String>) -> (r: &mut Self)
        requires
            old(self).config().selection() is None,
        ensures
            r.config().selection() == Some((true, string_views(fonts@).to_set())),
            r.preload_set() == old(self).preload_set(),
            *final(self) == *final(r),
    {
        self.family_config = FontFamilyConfig::Whitelist(fonts);
        self
    }

    /// Processes every family but those of `fonts`. The family selection may be set once only.
    pub fn blacklist_fonts(&mut self, fonts: Vec<String>) -> (r: &mut Self)
        requires
            old(self).config().selection() is None,
        ensures
            r.config().selection() == Some((false, string_views(fonts@).to_set())),
            r.preload_set() == old(self).preload_set(),
            *final(self) == *final(r),
    {
        self.family_config = FontFamilyConfig::Blacklist(fonts);
        self
    }

    /// The finished configuration.
    pub fn build(&self) -> (l: LoadedSubsetPlan)
        ensures
            roaring_contents(l.0.preload) == self.preload_set(),
            l.0.family_config.selection() == self.config().selection(),
    {
        LoadedSubsetPlan(Arc::new(SubsetPlanData {
            preload: roaring_clone(&self.preload),
            family_config: copy_config(&self.family_config),
        }))
    }
}

} // verus!
