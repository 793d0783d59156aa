//! The machine's side of the profile store: what a stored text holds, the
//! fall back to an empty profile, and the text to store after a run. Reading
//! and writing the store itself is the caller's part.

use crate::cpu::CPU;
use crate::profile::{merge_into, merged, ordered, total, total_of, Profile};
use std::collections::{BTreeMap, HashMap};
use vstd::prelude::*;

verus! {

broadcast use vstd::std_specs::hash::group_hash_axioms;

/// The profile that a stored text holds, if the text is a JSON object of
/// addresses and counts.
pub uninterp spec fn stored_profile(text: Seq<char>) -> Option<Map<usize, usize>>;

/// `serde_json::from_str` at the type of a profile: reads a JSON object whose
/// keys are addresses and whose values are counts. It fails on any other
/// text; what it returns depends on the text alone.
#[verifier::external_body]
fn parse_profile(text: &str) -> (profile: Option<Profile>)
    ensures
        match profile {
            Some(p) => stored_profile(text@) == Some(p@),
            None => stored_profile(text@) is None,
        },
{
    serde_json::from_str::<HashMap<usize, usize>>(text).ok()
}

/// The text that stands for a profile in the store: indented JSON with one
/// entry for each address, the addresses in ascending order; `None` where
/// the profile cannot be rendered.
pub uninterp spec fn profile_text(profile: Map<usize, usize>) -> Option<Seq<char>>;

/// `serde_json::to_string_pretty` on an ordered map of addresses and counts:
/// the map as indented JSON text. The map is walked in the order of its
/// keys, so the text depends on what the map holds alone.
#[verifier::external_body]
fn render_profile(profile: &BTreeMap<usize, usize>) -> (text: Option<String>)
    ensures
        match text {
            Some(t) => profile_text(profile@) == Some(t@),
            None => profile_text(profile@) is None,
        },
{
    serde_json::to_string_pretty(profile).ok()
}

/// How a profile came out of the store.
#[derive(Clone, Copy, Debug, PartialEq, Eq, Structural)]
pub enum ProfileStatus {
    /// The store held a profile.
    Loaded,
    /// The store held nothing.
    Missing,
    /// The store held what is no profile. This is worth a warning and
    /// nothing worse: the run starts with an empty profile.
    Corrupt,
}

/// The profile to start with, given what reading the stored text gave.
pub fn adopt_profile(parsed: Option<Profile>) -> (r: (Profile, ProfileStatus))
    ensures
        match parsed {
            Some(p) => r.0@ == p@ && r.1 == ProfileStatus::Loaded,
            None => r.0@ == Map::<usize, usize>::empty() && r.1 == ProfileStatus::Corrupt,
        },
{
    match parsed {
        Some(p) => (p, ProfileStatus::Loaded),
        None => (HashMap::new(), ProfileStatus::Corrupt),
    }
}

/// The profile to start with, given what the store holds: the stored
/// profile; or an empty one where the store holds nothing or what it holds
/// is no profile. Loading never fails.
pub fn load_profile(stored: Option<&str>) -> (r: (Profile, ProfileStatus))
    ensures
        match stored {
            None => r.0@ == Map::<usize, usize>::empty() && r.1 == ProfileStatus::Missing,
            Some(text) => match stored_profile(text@) {
                Some(p) => r.0@ == p && r.1 == ProfileStatus::Loaded,
                None => r.0@ == Map::<usize, usize>::empty() && r.1 == ProfileStatus::Corrupt,
            },
        },
{
    match stored {
        None => (HashMap::new(), ProfileStatus::Missing),
        Some(text) => adopt_profile(parse_profile(text)),
    }
}

/// The text to store for a profile, or `None` where it cannot be rendered.
/// The entries are written in the order of their addresses, so two profiles
/// that hold the same counts give the same text.
pub fn save_profile(profile: &Profile) -> (text: Option<String>)
    ensures
        match text {
            Some(t) => profile_text(profile@) == Some(t@),
            None => profile_text(profile@) is None,
        },
{
    let sorted: BTreeMap<usize, usize> = ordered(profile);
    render_profile(&sorted)
}

impl CPU {
    /// Takes the execution history from what the store holds. Where the
    /// store holds nothing the history stays as it is; where it holds what
    /// is no profile the history becomes empty.
    pub fn load_execution_history(&mut self, stored: Option<&str>) -> (status: ProfileStatus)
        ensures
            match stored {
                None => status == ProfileStatus::Missing && final(self)@ == old(self)@,
                Some(text) => match stored_profile(text@) {
                    Some(p) => status == ProfileStatus::Loaded && final(self)@ == (
                    crate::cpu::MachineState { profile: p, ..old(self)@ }),
                    None => status == ProfileStatus::Corrupt && final(self)@ == (
                    crate::cpu::MachineState { profile: Map::empty(), ..old(self)@ }),
                },
            },
            final(self).same_observations(old(self)),
    {
        match stored {
            None => ProfileStatus::Missing,
            Some(text) => {
                let (profile, status) = load_profile(Some(text));
                self.execution_history = profile;
                status
            },
        }
    }

    /// The text to store for the execution history: that of the profile
    /// which the history holds.
    pub fn save_execution_history(&self) -> (text: Option<String>)
        ensures
            match text {
                Some(t) => profile_text(self@.profile) == Some(t@),
                None => profile_text(self@.profile) is None,
            },
    {
        save_profile(&self.execution_history)
    }

    /// Merges the execution history into the live counters, adding the
    /// counts of each address. No live count is overwritten.
    pub fn merge_history(&mut self)
        ensures
            final(self)@ == (crate::cpu::MachineState {
                live: merged(old(self)@.live, old(self)@.profile),
                ..old(self)@
            }),
            final(self).same_observations(old(self)),
    {
        merge_into(&mut self.execution_count, &self.execution_history);
    }

    /// The number of executions that the history records, over all
    /// addresses.
    pub fn total_executions(&self) -> (sum: u128)
        ensures
            sum == total_of(self@.profile),
            sum < u128::MAX,
    {
        total(&self.execution_history)
    }
}

} // verus!
