//! The policy by which a report picks countries and events.

use crate::lexer::EQUALS;
use crate::model::{
    country_views, text_views, EnhancedCountry, EnhancedCountryView, EnhancedHoi4Save,
};
use vstd::prelude::*;
use vstd::slice::slice_to_vec;

verus! {

/// Whether a country counts as active: its stability or its war support is
/// not one half, which stands for "no data", and it has a focus with a
/// current focus or a progress recorded.
pub open spec fn active_spec(c: EnhancedCountryView) -> bool {
    &&& !c.stability.is_half_spec() || !c.war_support.is_half_spec()
    &&& c.focus matches Some(focus) && (focus.current is Some || focus.progress is Some)
}

/// Whether a country counts as active.
pub fn is_active(country: &EnhancedCountry) -> (r: bool)
    ensures
        r == active_spec(country@),
{
    let has_activity: bool = !country.stability.is_half() || !country.war_support.is_half();
    let can_do_focuses: bool = match &country.focus {
        Some(focus) => focus.current.is_some() || focus.progress.is_some(),
        None => false,
    };
    has_activity && can_do_focuses
}

/// The positions of the active countries among the first `n` countries,
/// in order.
pub open spec fn active_positions(
    countries: Seq<(crate::model::CountryTag, EnhancedCountryView)>,
    n: int,
) -> Seq<usize>
    decreases n,
{
    if n <= 0 {
        Seq::empty()
    } else if active_spec(countries[n - 1].1) {
        active_positions(countries, n - 1).push((n - 1) as usize)
    } else {
        active_positions(countries, n - 1)
    }
}

/// The positions of the active countries of a save, in order.
pub fn active_countries(save: &EnhancedHoi4Save) -> (r: Vec<usize>)
    ensures
        r@ == active_positions(save@.countries, save@.countries.len() as int),
{
    let mut out: Vec<usize> = Vec::new();
    let ghost all = country_views(save.countries@);
    let mut i: usize = 0;
    while i < save.countries.len()
        invariant
            i <= save.countries.len(),
            all == save@.countries,
            out@ == active_positions(all, i as int),
        decreases save.countries.len() - i,
    {
        assert(all[i as int].1 == save.countries@[i as int].1@);
        if is_active(&save.countries[i].1) {
            out.push(i);
        }
        i += 1;
    }
    out
}

/// Whether an event name is left over from the way a list of events is
/// written: the word `id` or a lone `=`.
pub open spec fn is_artifact(name: Seq<u8>) -> bool {
    name == seq![0x69u8, 0x64u8] || name == seq![EQUALS]
}

/// The event names that are no artifacts, in order.
pub open spec fn kept_events(names: Seq<Seq<u8>>) -> Seq<Seq<u8>>
    decreases names.len(),
{
    if names.len() == 0 {
        Seq::empty()
    } else if is_artifact(names[0]) {
        kept_events(names.skip(1))
    } else {
        seq![names[0]] + kept_events(names.skip(1))
    }
}

/// Whether an event name is an artifact.
pub fn name_is_artifact(name: &[u8]) -> (r: bool)
    ensures
        r == is_artifact(name@),
{
    if name.len() == 2 && name[0] == 0x69 && name[1] == 0x64 {
        assert(name@ =~= seq![0x69u8, 0x64u8]);
        true
    } else if name.len() == 1 && name[0] == EQUALS {
        assert(name@ =~= seq![EQUALS]);
        true
    } else {
        false
    }
}

/// Drops from a list of event names the words `id` and `=`, which are no
/// events.
pub fn clean_events(names: &Vec<Vec<u8>>) -> (r: Vec<Vec<u8>>)
    ensures
        text_views(r@) == kept_events(text_views(names@)),
{
    let ghost all = text_views(names@);
    let mut out: Vec<Vec<u8>> = Vec::new();
    let mut i: usize = 0;
    assert(all.skip(0) == all);
    assert(text_views(out@) =~= Seq::<Seq<u8>>::empty());
    assert(text_views(out@) + kept_events(all) == kept_events(all));
    while i < names.len()
        invariant
            i <= names.len(),
            all == text_views(names@),
            kept_events(all) == text_views(out@) + kept_events(all.skip(i as int)),
        decreases names.len() - i,
    {
        let ghost before = text_views(out@);
        let ghost rest = all.skip(i as int);
        assert(rest[0] == all[i as int]);
        assert(rest.skip(1) == all.skip(i + 1));
        if !name_is_artifact(names[i].as_slice()) {
            out.push(slice_to_vec(names[i].as_slice()));
            assert(text_views(out@) =~= before + seq![rest[0]]);
            assert(before + (seq![rest[0]] + kept_events(rest.skip(1))) == (before + seq![
                rest[0],
            ]) + kept_events(rest.skip(1)));
        }
        i += 1;
    }
    assert(all.skip(names.len() as int).len() == 0);
    assert(text_views(out@) + Seq::<Seq<u8>>::empty() == text_views(out@));
    out
}

} // verus!
