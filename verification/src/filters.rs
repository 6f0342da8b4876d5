//! The filter entity consumed and produced by the optimizer: a pattern, a
//! fixed-width bitset of behavioural flags, optional domain restrictions, an
//! optional auxiliary bug tag, and optional textual provenance.

use vstd::prelude::*;

verus! {

/// Flag bit: the pattern must be evaluated as a regex-style pattern.
pub const MASK_IS_REGEX: u32 = 0x1;

/// Flag bit: the pattern is a fully-anchored ("complete") regex.
pub const MASK_IS_COMPLETE_REGEX: u32 = 0x2;

/// Flag bit: the filter performs fuzzy matching.
pub const MASK_IS_FUZZY: u32 = 0x4;

/// Flag bit: the filter is anchored to a hostname.
pub const MASK_IS_HOSTNAME_ANCHOR: u32 = 0x8;

/// Flag bit: the filter is a redirect rule.
pub const MASK_IS_REDIRECT: u32 = 0x10;

/// Flag bit: the filter is a CSP rule.
pub const MASK_IS_CSP: u32 = 0x20;

/// True iff every bit of `bit` is set in `mask`.
pub open spec fn mask_has(mask: u32, bit: u32) -> bool {
    mask & bit == bit
}

/// `mask` with the bits of `bit` set or cleared according to `value`.
pub open spec fn mask_set(mask: u32, bit: u32, value: bool) -> u32 {
    if value {
        mask | bit
    } else {
        mask & !bit
    }
}

/// The fixed-width bitset of boolean filter options.
#[derive(Clone, Copy, PartialEq, Eq, Structural, Debug)]
pub struct NetworkFilterMask {
    pub bits: u32,
}

impl NetworkFilterMask {
    /// A mask holding exactly the given bits.
    pub fn new(bits: u32) -> (m: NetworkFilterMask)
        ensures
            m.bits == bits,
    {
        NetworkFilterMask { bits }
    }

    /// Whether every bit of `bit` is set.
    pub fn contains(&self, bit: u32) -> (r: bool)
        ensures
            r == mask_has(self.bits, bit),
    {
        self.bits & bit == bit
    }

    /// Set or clear the bits of `bit` according to `value`.
    pub fn set(&mut self, bit: u32, value: bool)
        ensures
            final(self).bits == mask_set(old(self).bits, bit, value),
    {
        if value {
            self.bits = self.bits | bit;
        } else {
            self.bits = self.bits & !bit;
        }
    }
}

/// The pattern of a filter: absent (matches any path), a single string, or an
/// ordered list of alternative strings any one of which suffices.
pub enum FilterPart {
    Empty,
    Simple(String),
    AnyOf(Vec<String>),
}

/// Mathematical model of a pattern.
#[verifier::ext_equal]
pub enum PartModel {
    Empty,
    Simple(Seq<char>),
    AnyOf(Seq<Seq<char>>),
}

impl DeepView for FilterPart {
    type V = PartModel;

    open spec fn deep_view(&self) -> PartModel {
        match self {
            FilterPart::Empty => PartModel::Empty,
            FilterPart::Simple(s) => PartModel::Simple(s.deep_view()),
            FilterPart::AnyOf(v) => PartModel::AnyOf(v.deep_view()),
        }
    }
}

/// One parsed network-request filter rule.
pub struct NetworkFilter {
    pub mask: NetworkFilterMask,
    pub filter: FilterPart,
    pub opt_domains: Option<Vec<u64>>,
    pub opt_not_domains: Option<Vec<u64>>,
    pub bug: Option<u32>,
    pub raw_line: Option<String>,
}

/// Mathematical model of a filter.
#[verifier::ext_equal]
pub struct FilterModel {
    pub mask: u32,
    pub part: PartModel,
    pub opt_domains: Option<Seq<u64>>,
    pub opt_not_domains: Option<Seq<u64>>,
    pub bug: Option<u32>,
    pub raw_line: Option<Seq<char>>,
}

impl DeepView for NetworkFilter {
    type V = FilterModel;

    open spec fn deep_view(&self) -> FilterModel {
        FilterModel {
            mask: self.mask.bits,
            part: self.filter.deep_view(),
            opt_domains: self.opt_domains.deep_view(),
            opt_not_domains: self.opt_not_domains.deep_view(),
            bug: self.bug,
            raw_line: self.raw_line.deep_view(),
        }
    }
}

/// Well-formedness of a filter: a multi-pattern list never holds fewer than
/// two alternatives (it would collapse to the absent or single variant).
pub open spec fn wf_filter(f: FilterModel) -> bool {
    match f.part {
        PartModel::AnyOf(ss) => ss.len() >= 2,
        _ => true,
    }
}

impl NetworkFilter {
    /// Whether the filter performs fuzzy matching.
    pub fn is_fuzzy(&self) -> (r: bool)
        ensures
            r == mask_has(self.deep_view().mask, MASK_IS_FUZZY),
    {
        self.mask.contains(MASK_IS_FUZZY)
    }

    /// Whether the filter is anchored to a hostname.
    pub fn is_hostname_anchor(&self) -> (r: bool)
        ensures
            r == mask_has(self.deep_view().mask, MASK_IS_HOSTNAME_ANCHOR),
    {
        self.mask.contains(MASK_IS_HOSTNAME_ANCHOR)
    }

    /// Whether the filter is a redirect rule.
    pub fn is_redirect(&self) -> (r: bool)
        ensures
            r == mask_has(self.deep_view().mask, MASK_IS_REDIRECT),
    {
        self.mask.contains(MASK_IS_REDIRECT)
    }

    /// Whether the filter is a CSP rule.
    pub fn is_csp(&self) -> (r: bool)
        ensures
            r == mask_has(self.deep_view().mask, MASK_IS_CSP),
    {
        self.mask.contains(MASK_IS_CSP)
    }

    /// Whether the filter carries an auxiliary bug tag.
    pub fn has_bug(&self) -> (r: bool)
        ensures
            r == (self.deep_view().bug is Some),
    {
        self.bug.is_some()
    }

    /// Whether the pattern must be evaluated as a regex-style pattern.
    pub fn is_regex(&self) -> (r: bool)
        ensures
            r == mask_has(self.deep_view().mask, MASK_IS_REGEX),
    {
        self.mask.contains(MASK_IS_REGEX)
    }

    /// Whether the pattern is a fully-anchored ("complete") regex.
    pub fn is_complete_regex(&self) -> (r: bool)
        ensures
            r == mask_has(self.deep_view().mask, MASK_IS_COMPLETE_REGEX),
    {
        self.mask.contains(MASK_IS_COMPLETE_REGEX)
    }

    /// The textual provenance of the filter, or the empty string where none
    /// was recorded.
    pub fn to_string(&self) -> (s: String)
        ensures
            s@ == match self.deep_view().raw_line {
                Some(l) => l,
                None => Seq::<char>::empty(),
            },
    {
        match &self.raw_line {
            Some(l) => l.clone(),
            None => String::new(),
        }
    }
}

} // verus!
