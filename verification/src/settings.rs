use crate::content::Tree;
use crate::redaction::{Redaction, Selector, Step};
use vstd::prelude::*;

verus! {

/// The mathematical value of a list of redaction rules: for each rule its
/// selector's path and its replacement.
pub open spec fn rules_view(rules: Seq<(Selector, Redaction)>) -> Seq<(Seq<Step>, Tree)> {
    Seq::new(rules.len(), |i: int| (rules[i].0@, rules[i].1@))
}

/// How trees are normalized before they are rendered.
pub struct Settings {
    /// Whether the pairs of every map are sorted by key.
    pub sort_maps: bool,
    /// The redaction rules, in the order in which they are applied.
    pub redactions: Vec<(Selector, Redaction)>,
}

impl Settings {
    /// The redaction rules as mathematical values, in order.
    pub open spec fn rules(&self) -> Seq<(Seq<Step>, Tree)> {
        rules_view(self.redactions@)
    }

    /// Settings that leave a tree as it is: no sorting, no redaction.
    pub fn new() -> (settings: Settings)
        ensures
            !settings.sort_maps,
            settings.redactions@.len() == 0,
            settings.rules() == Seq::<(Seq<Step>, Tree)>::empty(),
    {
        let settings = Settings { sort_maps: false, redactions: Vec::new() };
        assert(settings.rules() =~= Seq::empty());
        settings
    }

    /// Whether the pairs of every map are sorted by key.
    pub fn sort_maps(&self) -> (on: bool)
        ensures
            on == self.sort_maps,
    {
        self.sort_maps
    }

    /// Switches the sorting of maps on or off.
    pub fn set_sort_maps(&mut self, on: bool)
        ensures
            final(self).sort_maps == on,
            final(self).redactions == old(self).redactions,
    {
        self.sort_maps = on;
    }

    /// Adds a redaction rule behind those that are there.
    pub fn add_redaction(&mut self, selector: Selector, redaction: Redaction)
        ensures
            final(self).sort_maps == old(self).sort_maps,
            final(self).redactions@ == old(self).redactions@.push((selector, redaction)),
            final(self).rules() == old(self).rules().push((selector@, redaction@)),
    {
        self.redactions.push((selector, redaction));
        assert(self.rules() =~= old(self).rules().push((selector@, redaction@)));
    }

    /// The redaction rules, in the order in which they are applied.
    pub fn redactions(&self) -> (rules: &[(Selector, Redaction)])
        ensures
            rules@ == self.redactions@,
    {
        self.redactions.as_slice()
    }
}

impl Default for Settings {
    /// Settings that leave a tree as it is: no sorting, no redaction.
    fn default() -> (settings: Settings)
        ensures
            !settings.sort_maps,
            settings.redactions@.len() == 0,
    {
        Settings::new()
    }
}

} // verus!
