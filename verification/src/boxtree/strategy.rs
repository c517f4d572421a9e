//! Per MIP level settings of how MIP maps are resampled.
use vstd::prelude::*;
use std::collections::HashMap;
use crate::boxtree::types::{MIPMapStrategy, MIPResamplingMethods, clamped_method};

verus! {

broadcast use {
    vstd::std_specs::hash::group_hash_axioms,
    vstd::std_specs::hash::axiom_usize_obeys_hash_table_key_model,
    vstd::std_specs::hash::axiom_random_state_builds_valid_hashers,
};

/// The resampling methods of the default strategy
pub open spec fn default_methods() -> Map<usize, MIPResamplingMethods> {
    map![
        1usize => MIPResamplingMethods::Posterize(50),
        2usize => MIPResamplingMethods::BoxFilter,
        3usize => MIPResamplingMethods::BoxFilter,
        4usize => MIPResamplingMethods::BoxFilter,
    ]
}

/// The color matching thresholds of the default strategy, in thousandths
pub open spec fn default_thresholds() -> Map<usize, u32> {
    map![2usize => 100u32, 3usize => 50u32, 4usize => 20u32]
}

/// A threshold clamped into `0..=1000`
pub open spec fn clamped_threshold(t: u32) -> u32 {
    if t > 1000 { 1000 } else { t }
}

/// The methods after setting each listed level in turn
pub open spec fn methods_after(m: Map<usize, MIPResamplingMethods>, levels: Seq<(usize, MIPResamplingMethods)>) -> Map<usize, MIPResamplingMethods>
    decreases levels.len(),
{
    if levels.len() == 0 {
        m
    } else {
        methods_after(m, levels.drop_last()).insert(levels.last().0, clamped_method(levels.last().1))
    }
}

/// The thresholds after setting each listed level in turn
pub open spec fn thresholds_after(m: Map<usize, u32>, levels: Seq<(usize, u32)>) -> Map<usize, u32>
    decreases levels.len(),
{
    if levels.len() == 0 {
        m
    } else {
        thresholds_after(m, levels.drop_last()).insert(levels.last().0, clamped_threshold(levels.last().1))
    }
}

impl MIPMapStrategy {
    /// True if MIP maps are built
    pub closed spec fn spec_enabled(&self) -> bool {
        self.enabled
    }

    /// The resampling method set for each MIP level
    pub closed spec fn methods(&self) -> Map<usize, MIPResamplingMethods> {
        self.resampling_methods@
    }

    /// The color matching threshold set for each MIP level, in thousandths
    pub closed spec fn thresholds(&self) -> Map<usize, u32> {
        self.resampling_color_matching_thresholds@
    }

    /// The method set for a MIP level, if any
    pub open spec fn method_entry(&self, mip_level: usize) -> Option<MIPResamplingMethods> {
        if self.methods().contains_key(mip_level) {
            Some(self.methods()[mip_level])
        } else {
            None
        }
    }

    /// The color matching threshold set for a MIP level, if any
    pub open spec fn threshold_entry(&self, mip_level: usize) -> Option<u32> {
        if self.thresholds().contains_key(mip_level) {
            Some(self.thresholds()[mip_level])
        } else {
            None
        }
    }

    /// The method used at a MIP level: the one set, or `BoxFilter`
    pub open spec fn method_at(&self, mip_level: usize) -> MIPResamplingMethods {
        if self.methods().contains_key(mip_level) {
            self.methods()[mip_level]
        } else {
            MIPResamplingMethods::BoxFilter
        }
    }

    /// The color matching threshold of a MIP level: the one set, or 0
    pub open spec fn threshold_at(&self, mip_level: usize) -> u32 {
        if self.thresholds().contains_key(mip_level) {
            self.thresholds()[mip_level]
        } else {
            0
        }
    }

    /// The strategies are the same in their settings
    pub open spec fn same_settings(&self, other: &MIPMapStrategy) -> bool {
        &&& self.spec_enabled() == other.spec_enabled()
        &&& self.methods() == other.methods()
        &&& self.thresholds() == other.thresholds()
    }

    /// Color similarity threshold of a MIP level in thousandths: colors this close to
    /// a color already in the palette are replaced by that color during MIP resampling,
    /// which reduces the number of colors the MIP maps introduce
    pub fn get_new_color_similarity_at(&self, mip_level: usize) -> (r: u32)
        ensures
            r == self.threshold_at(mip_level),
    {
        match self.resampling_color_matching_thresholds.get(&mip_level) {
            Some(t) => *t,
            None => 0,
        }
    }

    /// Checks the value and integrates it into the object
    pub(crate) fn set_color_similarity_thr_internal(&mut self, mip_level: usize, similarity_thr: u32)
        ensures
            final(self).spec_enabled() == old(self).spec_enabled(),
            final(self).methods() == old(self).methods(),
            final(self).thresholds() == old(self).thresholds().insert(mip_level, clamped_threshold(similarity_thr)),
    {
        let thr = if similarity_thr > 1000 { 1000 } else { similarity_thr };
        self.resampling_color_matching_thresholds.insert(mip_level, thr);
    }

    /// Sets the similarity threshold (in thousandths, clamped to at most 1000) for a color to be
    /// discarded for a similar, already available color during MIP resampling operations
    pub fn set_color_similarity_thr_at(self, mip_level: usize, similarity_thr: u32) -> (r: Self)
        ensures
            r.spec_enabled() == self.spec_enabled(),
            r.methods() == self.methods(),
            r.thresholds() == self.thresholds().insert(mip_level, clamped_threshold(similarity_thr)),
    {
        let mut s = self;
        s.set_color_similarity_thr_internal(mip_level, similarity_thr);
        s
    }

    /// Sets the color similarity thresholds for each given MIP level, in order
    pub fn set_color_similarity_thr(self, levels: Vec<(usize, u32)>) -> (r: Self)
        ensures
            r.spec_enabled() == self.spec_enabled(),
            r.methods() == self.methods(),
            r.thresholds() == thresholds_after(self.thresholds(), levels@),
    {
        let mut chain = self;
        let mut i: usize = 0;
        while i < levels.len()
            invariant
                i <= levels.len(),
                chain.spec_enabled() == self.spec_enabled(),
                chain.methods() == self.methods(),
                chain.thresholds() == thresholds_after(self.thresholds(), levels@.subrange(0, i as int)),
            decreases levels.len() - i,
        {
            let (mip_level, thr) = levels[i];
            chain = chain.set_color_similarity_thr_at(mip_level, thr);
            assert(levels@.subrange(0, i + 1).drop_last() == levels@.subrange(0, i as int));
            i += 1;
        }
        assert(levels@.subrange(0, levels.len() as int) == levels@);
        chain
    }

    /// The method set for a MIP level, if one is set
    pub(crate) fn method_if_set(&self, mip_level: usize) -> (r: Option<MIPResamplingMethods>)
        ensures
            r == self.method_entry(mip_level),
    {
        match self.resampling_methods.get(&mip_level) {
            Some(m) => Some(*m),
            None => None,
        }
    }

    /// A strategy with the given settings for the first levels, and nothing set above them
    pub(crate) fn with_levels(
        enabled: bool,
        methods: &Vec<Option<MIPResamplingMethods>>,
        thresholds: &Vec<Option<u32>>,
    ) -> (r: MIPMapStrategy)
        requires
            methods@.len() == thresholds@.len(),
        ensures
            r.spec_enabled() == enabled,
            forall|l: usize| #![trigger r.method_entry(l)] r.method_entry(l) == if l < methods@.len() { methods@[l as int] } else { None },
            forall|l: usize| #![trigger r.threshold_entry(l)] r.threshold_entry(l) == if l < thresholds@.len() { thresholds@[l as int] } else { None },
    {
        let mut m: HashMap<usize, MIPResamplingMethods> = HashMap::new();
        let mut t: HashMap<usize, u32> = HashMap::new();
        let mut i: usize = 0;
        while i < methods.len()
            invariant
                i <= methods@.len(),
                methods@.len() == thresholds@.len(),
                forall|l: usize| #![trigger m@.contains_key(l)] m@.contains_key(l) <==> (l < i && methods@[l as int] is Some),
                forall|l: usize| #![trigger m@.contains_key(l)] m@.contains_key(l) ==> Some(m@[l]) == methods@[l as int],
                forall|l: usize| #![trigger t@.contains_key(l)] t@.contains_key(l) <==> (l < i && thresholds@[l as int] is Some),
                forall|l: usize| #![trigger t@.contains_key(l)] t@.contains_key(l) ==> Some(t@[l]) == thresholds@[l as int],
            decreases methods@.len() - i,
        {
            match methods[i] {
                Some(x) => {
                    m.insert(i, x);
                },
                None => {},
            }
            match thresholds[i] {
                Some(x) => {
                    t.insert(i, x);
                },
                None => {},
            }
            i += 1;
        }
        let r = MIPMapStrategy { enabled, resampling_methods: m, resampling_color_matching_thresholds: t };
        proof {
            assert forall|l: usize| #![trigger r.method_entry(l)] r.method_entry(l) == if l < methods@.len() { methods@[l as int] } else { None } by {
                if m@.contains_key(l) {
                } else if l < methods@.len() {
                }
            }
            assert forall|l: usize| #![trigger r.threshold_entry(l)] r.threshold_entry(l) == if l < thresholds@.len() { thresholds@[l as int] } else { None } by {
                if t@.contains_key(l) {
                } else if l < thresholds@.len() {
                }
            }
        }
        r
    }

    /// The color matching threshold of a MIP level, if one is set
    pub(crate) fn threshold_if_set(&self, mip_level: usize) -> (r: Option<u32>)
        ensures
            r == if self.thresholds().contains_key(mip_level) {
                Some(self.thresholds()[mip_level])
            } else {
                None
            },
    {
        match self.resampling_color_matching_thresholds.get(&mip_level) {
            Some(t) => Some(*t),
            None => None,
        }
    }

    /// Provides the strategy for a MIP level during resample operations
    pub fn get_method_at(&self, mip_level: usize) -> (r: MIPResamplingMethods)
        ensures
            r == self.method_at(mip_level),
    {
        match self.resampling_methods.get(&mip_level) {
            Some(m) => *m,
            None => MIPResamplingMethods::BoxFilter,
        }
    }

    /// Sets the method of a MIP level, its threshold clamped into `0..=1000`
    pub(crate) fn set_method_at_internal(&mut self, mip_level: usize, method: MIPResamplingMethods)
        ensures
            final(self).spec_enabled() == old(self).spec_enabled(),
            final(self).methods() == old(self).methods().insert(mip_level, clamped_method(method)),
            final(self).thresholds() == old(self).thresholds(),
    {
        let method = match method {
            MIPResamplingMethods::Posterize(thr) => MIPResamplingMethods::Posterize(
                if thr > 1000 { 1000 } else { thr },
            ),
            MIPResamplingMethods::PosterizeBD(thr) => MIPResamplingMethods::PosterizeBD(
                if thr > 1000 { 1000 } else { thr },
            ),
            other => other,
        };
        self.resampling_methods.insert(mip_level, method);
    }

    /// Sets the strategy for a MIP level during resample operations
    /// In case method has a parameter, it is clamped to `0..=1000`
    pub fn set_method_at(self, mip_level: usize, method: MIPResamplingMethods) -> (r: Self)
        ensures
            r.spec_enabled() == self.spec_enabled(),
            r.methods() == self.methods().insert(mip_level, clamped_method(method)),
            r.thresholds() == self.thresholds(),
    {
        let mut s = self;
        s.set_method_at_internal(mip_level, method);
        s
    }

    /// Sets the strategy for each given MIP level, in order
    pub fn set_method(self, levels: Vec<(usize, MIPResamplingMethods)>) -> (r: Self)
        ensures
            r.spec_enabled() == self.spec_enabled(),
            r.methods() == methods_after(self.methods(), levels@),
            r.thresholds() == self.thresholds(),
    {
        let mut chain = self;
        let mut i: usize = 0;
        while i < levels.len()
            invariant
                i <= levels.len(),
                chain.spec_enabled() == self.spec_enabled(),
                chain.thresholds() == self.thresholds(),
                chain.methods() == methods_after(self.methods(), levels@.subrange(0, i as int)),
            decreases levels.len() - i,
        {
            let (mip_level, method) = levels[i];
            chain = chain.set_method_at(mip_level, method);
            assert(levels@.subrange(0, i + 1).drop_last() == levels@.subrange(0, i as int));
            i += 1;
        }
        assert(levels@.subrange(0, levels.len() as int) == levels@);
        chain
    }

    /// Returns true if MIP maps are enabled
    pub fn is_enabled(&self) -> (r: bool)
        ensures
            r == self.spec_enabled(),
    {
        self.enabled
    }

    /// Enables or disables MIP maps in place
    pub(crate) fn set_enabled_internal(&mut self, enabled: bool)
        ensures
            final(self).spec_enabled() == enabled,
            final(self).methods() == old(self).methods(),
            final(self).thresholds() == old(self).thresholds(),
    {
        self.enabled = enabled;
    }

    /// Enables or disables mipmap feature for albedo values
    pub fn set_enabled(self, enabled: bool) -> (r: Self)
        ensures
            r.spec_enabled() == enabled,
            r.methods() == self.methods(),
            r.thresholds() == self.thresholds(),
    {
        let mut s = self;
        s.enabled = enabled;
        s
    }
}

impl Default for MIPMapStrategy {
    fn default() -> (r: MIPMapStrategy)
        ensures
            !r.spec_enabled(),
            r.methods() == default_methods(),
            r.thresholds() == default_thresholds(),
    {
        let mut resampling_methods = HashMap::new();
        resampling_methods.insert(1, MIPResamplingMethods::Posterize(50));
        resampling_methods.insert(2, MIPResamplingMethods::BoxFilter);
        resampling_methods.insert(3, MIPResamplingMethods::BoxFilter);
        resampling_methods.insert(4, MIPResamplingMethods::BoxFilter);
        let mut resampling_color_matching_thresholds = HashMap::new();
        resampling_color_matching_thresholds.insert(2, 100);
        resampling_color_matching_thresholds.insert(3, 50);
        resampling_color_matching_thresholds.insert(4, 20);
        MIPMapStrategy { enabled: false, resampling_methods, resampling_color_matching_thresholds }
    }
}

/// A method set for a level is the one read back at that level, with its threshold clamped,
/// while every other level keeps its method.
pub proof fn lemma_method_read_after_write(s: MIPMapStrategy, r: MIPMapStrategy, level: usize, method: MIPResamplingMethods, other: usize)
    requires
        r.methods() == s.methods().insert(level, clamped_method(method)),
        other != level,
    ensures
        r.method_at(level) == clamped_method(method),
        r.method_at(other) == s.method_at(other),
{
}

/// A threshold set for a level is the one read back at that level, clamped,
/// while every other level keeps its threshold.
pub proof fn lemma_threshold_read_after_write(s: MIPMapStrategy, r: MIPMapStrategy, level: usize, thr: u32, other: usize)
    requires
        r.thresholds() == s.thresholds().insert(level, clamped_threshold(thr)),
        other != level,
    ensures
        r.threshold_at(level) == clamped_threshold(thr),
        r.threshold_at(other) == s.threshold_at(other),
{
}

} // verus!
