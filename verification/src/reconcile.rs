//! The reconciler: resolved records brought together with data that lives
//! elsewhere in the save.
//!
//! Character records get the display name that the directory knows for their
//! number. A number that the directory does not know is no failure: the name
//! stays as it was. Lists of completed focuses that were gathered per
//! country are attached to the country with the same tag, and to no other.

use crate::decimal::Decimal;
use crate::directory::CharacterDirectory;
use crate::model::{
    country_views, leader_views, opt_party, text_views, Character, CharacterView, CountryLeader,
    CountryLeaderView, CountryTag, EnhancedCountry, EnhancedCountryView, EnhancedHoi4Save,
    EnhancedHoi4SaveView, Focus, FocusView, Parties, PartiesView, Party, PartyView, Politics,
    PoliticsView,
};
use vstd::prelude::*;
use vstd::slice::slice_to_vec;

verus! {

/// A character with the name that the directory knows for its number.
pub open spec fn named_character(c: CharacterView, names: Map<i32, Seq<u8>>) -> CharacterView {
    CharacterView {
        id: c.id,
        kind: c.kind,
        name: match c.id {
            Some(id) => if names.contains_key(id) {
                Some(names[id])
            } else {
                c.name
            },
            None => c.name,
        },
    }
}

/// A leader whose character has its name.
pub open spec fn named_leader(l: CountryLeaderView, names: Map<i32, Seq<u8>>) -> CountryLeaderView {
    CountryLeaderView {
        ideology: l.ideology,
        character: match l.character {
            Some(c) => Some(named_character(c, names)),
            None => None,
        },
    }
}

/// Leaders whose characters have their names.
pub open spec fn named_leaders(ls: Seq<CountryLeaderView>, names: Map<i32, Seq<u8>>) -> Seq<
    CountryLeaderView,
> {
    Seq::new(ls.len(), |i: int| named_leader(ls[i], names))
}

/// A party whose leaders have their names.
pub open spec fn named_party(p: PartyView, names: Map<i32, Seq<u8>>) -> PartyView {
    PartyView {
        popularity: p.popularity,
        country_leader: match p.country_leader {
            Some(ls) => Some(named_leaders(ls, names)),
            None => None,
        },
    }
}

/// An optional party whose leaders have their names.
pub open spec fn named_opt_party(p: Option<PartyView>, names: Map<i32, Seq<u8>>) -> Option<
    PartyView,
> {
    match p {
        Some(party) => Some(named_party(party, names)),
        None => None,
    }
}

/// Parties whose leaders have their names.
pub open spec fn named_parties(p: PartiesView, names: Map<i32, Seq<u8>>) -> PartiesView {
    PartiesView {
        democratic: named_opt_party(p.democratic, names),
        communism: named_opt_party(p.communism, names),
        fascism: named_opt_party(p.fascism, names),
        neutrality: named_opt_party(p.neutrality, names),
    }
}

/// Politics whose leaders have their names.
pub open spec fn named_politics(p: PoliticsView, names: Map<i32, Seq<u8>>) -> PoliticsView {
    PoliticsView {
        ruling_party: p.ruling_party,
        political_power: p.political_power,
        parties: match p.parties {
            Some(parties) => Some(named_parties(parties, names)),
            None => None,
        },
        ideas: p.ideas,
        last_election: p.last_election,
        elections_allowed: p.elections_allowed,
    }
}

/// A country whose leaders have their names.
pub open spec fn named_country(
    c: EnhancedCountryView,
    names: Map<i32, Seq<u8>>,
) -> EnhancedCountryView {
    EnhancedCountryView {
        stability: c.stability,
        war_support: c.war_support,
        variables: c.variables,
        politics: match c.politics {
            Some(p) => Some(named_politics(p, names)),
            None => None,
        },
        focus: c.focus,
    }
}

/// Countries whose leaders have their names.
pub open spec fn named_countries(
    cs: Seq<(CountryTag, EnhancedCountryView)>,
    names: Map<i32, Seq<u8>>,
) -> Seq<(CountryTag, EnhancedCountryView)> {
    Seq::new(cs.len(), |i: int| (cs[i].0, named_country(cs[i].1, names)))
}

/// A save whose leaders have their names.
pub open spec fn named_save(
    s: EnhancedHoi4SaveView,
    names: Map<i32, Seq<u8>>,
) -> EnhancedHoi4SaveView {
    EnhancedHoi4SaveView {
        player: s.player,
        date: s.date,
        countries: named_countries(s.countries, names),
        fired_event_names: s.fired_event_names,
    }
}

/// Attaches to a character the name that the directory knows for its
/// number. Where it knows none, the character stays as it is.
pub fn name_character(character: Character, directory: &CharacterDirectory) -> (r: Character)
    ensures
        r@ == named_character(character@, directory@),
{
    let found: Option<Vec<u8>> = match character.id {
        Some(id) => directory.lookup(id),
        None => None,
    };
    let name: Option<Vec<u8>> = match found {
        Some(name) => Some(name),
        None => character.name,
    };
    Character { id: character.id, kind: character.kind, name }
}

/// Attaches the name to the character of a leader.
pub fn name_leader(leader: CountryLeader, directory: &CharacterDirectory) -> (r: CountryLeader)
    ensures
        r@ == named_leader(leader@, directory@),
{
    let character: Option<Character> = match leader.character {
        Some(c) => Some(name_character(c, directory)),
        None => None,
    };
    CountryLeader { ideology: leader.ideology, character }
}

/// Attaches the names to the characters of a sequence of leaders.
pub fn name_leaders(leaders: Vec<CountryLeader>, directory: &CharacterDirectory) -> (r: Vec<
    CountryLeader,
>)
    ensures
        leader_views(r@) == named_leaders(leader_views(leaders@), directory@),
{
    let mut out: Vec<CountryLeader> = leaders;
    let ghost orig = leader_views(out@);
    let n: usize = out.len();
    let mut i: usize = 0;
    while i < n
        invariant
            i <= n,
            n == out.len(),
            n == orig.len(),
            forall|k: int| 0 <= k < i ==> out@[k]@ == named_leader(orig[k], directory@),
            forall|k: int| i <= k < n ==> out@[k]@ == orig[k],
        decreases n - i,
    {
        let mut taken: CountryLeader = CountryLeader { ideology: None, character: None };
        out.set_and_swap(i, &mut taken);
        let named: CountryLeader = name_leader(taken, directory);
        out.set(i, named);
        i += 1;
    }
    assert(leader_views(out@) =~= named_leaders(orig, directory@));
    out
}

/// Attaches the names to the characters of a party.
pub fn name_party(party: Party, directory: &CharacterDirectory) -> (r: Party)
    ensures
        r@ == named_party(party@, directory@),
{
    let country_leader: Option<Vec<CountryLeader>> = match party.country_leader {
        Some(leaders) => Some(name_leaders(leaders, directory)),
        None => None,
    };
    Party { popularity: party.popularity, country_leader }
}

/// Attaches the names to the characters of an optional party.
pub fn name_opt_party(party: Option<Party>, directory: &CharacterDirectory) -> (r: Option<Party>)
    ensures
        opt_party(r) == named_opt_party(opt_party(party), directory@),
{
    match party {
        Some(p) => Some(name_party(p, directory)),
        None => None,
    }
}

/// Attaches the names to the characters of the parties of a country.
pub fn name_parties(parties: Parties, directory: &CharacterDirectory) -> (r: Parties)
    ensures
        r@ == named_parties(parties@, directory@),
{
    Parties {
        democratic: name_opt_party(parties.democratic, directory),
        communism: name_opt_party(parties.communism, directory),
        fascism: name_opt_party(parties.fascism, directory),
        neutrality: name_opt_party(parties.neutrality, directory),
    }
}

/// Attaches the names to the characters of the politics of a country.
pub fn name_politics(politics: Politics, directory: &CharacterDirectory) -> (r: Politics)
    ensures
        r@ == named_politics(politics@, directory@),
{
    let parties: Option<Parties> = match politics.parties {
        Some(p) => Some(name_parties(p, directory)),
        None => None,
    };
    Politics {
        ruling_party: politics.ruling_party,
        political_power: politics.political_power,
        parties,
        ideas: politics.ideas,
        last_election: politics.last_election,
        elections_allowed: politics.elections_allowed,
    }
}

/// Attaches the names to the characters of a country.
pub fn name_country(country: EnhancedCountry, directory: &CharacterDirectory) -> (r:
    EnhancedCountry)
    ensures
        r@ == named_country(country@, directory@),
{
    let politics: Option<Politics> = match country.politics {
        Some(p) => Some(name_politics(p, directory)),
        None => None,
    };
    EnhancedCountry {
        stability: country.stability,
        war_support: country.war_support,
        variables: country.variables,
        politics,
        focus: country.focus,
    }
}

/// A country that holds nothing, to stand in a place while its country is
/// worked on.
fn blank_country() -> (r: EnhancedCountry)
    ensures
        r@ == (EnhancedCountryView {
            stability: Decimal { mantissa: 5, scale: 1 },
            war_support: Decimal { mantissa: 5, scale: 1 },
            variables: Seq::empty(),
            politics: None,
            focus: None,
        }),
{
    let blank = EnhancedCountry {
        stability: Decimal { mantissa: 5, scale: 1 },
        war_support: Decimal { mantissa: 5, scale: 1 },
        variables: Vec::new(),
        politics: None,
        focus: None,
    };
    assert(blank@.variables =~= Seq::empty());
    blank
}

/// Attaches to every character of a save the name that the directory knows
/// for its number. Nothing else of the save changes, and no lookup that
/// misses is a failure.
pub fn attach_names(save: EnhancedHoi4Save, directory: &CharacterDirectory) -> (r:
    EnhancedHoi4Save)
    ensures
        r@ == named_save(save@, directory@),
{
    let mut countries: Vec<(CountryTag, EnhancedCountry)> = save.countries;
    let ghost orig = country_views(countries@);
    let n: usize = countries.len();
    let mut i: usize = 0;
    while i < n
        invariant
            i <= n,
            n == countries.len(),
            n == orig.len(),
            forall|k: int|
                0 <= k < i ==> countries@[k].0 == orig[k].0 && countries@[k].1@ == named_country(
                    orig[k].1,
                    directory@,
                ),
            forall|k: int|
                i <= k < n ==> countries@[k].0 == orig[k].0 && countries@[k].1@ == orig[k].1,
        decreases n - i,
    {
        let tag: CountryTag = countries[i].0;
        let mut taken: (CountryTag, EnhancedCountry) = (tag, blank_country());
        countries.set_and_swap(i, &mut taken);
        let named: EnhancedCountry = name_country(taken.1, directory);
        countries.set(i, (tag, named));
        i += 1;
    }
    assert(country_views(countries@) =~= named_countries(orig, directory@));
    EnhancedHoi4Save {
        player: save.player,
        date: save.date,
        countries,
        fired_event_names: save.fired_event_names,
    }
}

/// The views of lists of completed focuses with the tags of their
/// countries, in order.
pub open spec fn list_views(lists: Seq<(CountryTag, Vec<Vec<u8>>)>) -> Seq<
    (CountryTag, Seq<Seq<u8>>),
> {
    Seq::new(lists.len(), |i: int| (lists[i].0, text_views(lists[i].1@)))
}

/// The list of completed focuses that was gathered for a tag: the last one
/// where there are several, `None` where there is none.
pub open spec fn completed_of(lists: Seq<(CountryTag, Seq<Seq<u8>>)>, tag: CountryTag) -> Option<
    Seq<Seq<u8>>,
>
    decreases lists.len(),
{
    if lists.len() == 0 {
        None
    } else if lists.last().0 == tag {
        Some(lists.last().1)
    } else {
        completed_of(lists.drop_last(), tag)
    }
}

/// A country with a list of completed focuses put in place of its own. A
/// country without a focus stays as it is, and so does any country where no
/// list is given.
pub open spec fn with_completed(
    c: EnhancedCountryView,
    list: Option<Seq<Seq<u8>>>,
) -> EnhancedCountryView {
    match (c.focus, list) {
        (Some(focus), Some(completed)) => EnhancedCountryView {
            stability: c.stability,
            war_support: c.war_support,
            variables: c.variables,
            politics: c.politics,
            focus: Some(
                FocusView {
                    progress: focus.progress,
                    current: focus.current,
                    paused: focus.paused,
                    completed,
                },
            ),
        },
        _ => c,
    }
}

/// Countries, each with the list of completed focuses that was gathered for
/// its own tag.
pub open spec fn completed_countries(
    cs: Seq<(CountryTag, EnhancedCountryView)>,
    lists: Seq<(CountryTag, Seq<Seq<u8>>)>,
) -> Seq<(CountryTag, EnhancedCountryView)> {
    Seq::new(cs.len(), |i: int| (cs[i].0, with_completed(cs[i].1, completed_of(lists, cs[i].0))))
}

/// A save, each country with the list of completed focuses that was
/// gathered for its own tag.
pub open spec fn completed_save(
    s: EnhancedHoi4SaveView,
    lists: Seq<(CountryTag, Seq<Seq<u8>>)>,
) -> EnhancedHoi4SaveView {
    EnhancedHoi4SaveView {
        player: s.player,
        date: s.date,
        countries: completed_countries(s.countries, lists),
        fired_event_names: s.fired_event_names,
    }
}

/// Copies a sequence of texts.
pub fn copy_texts(texts: &Vec<Vec<u8>>) -> (r: Vec<Vec<u8>>)
    ensures
        text_views(r@) == text_views(texts@),
{
    let mut out: Vec<Vec<u8>> = Vec::new();
    let mut i: usize = 0;
    while i < texts.len()
        invariant
            i <= texts.len(),
            out@.len() == i,
            forall|k: int| 0 <= k < i ==> out@[k]@ == texts@[k]@,
        decreases texts.len() - i,
    {
        out.push(slice_to_vec(texts[i].as_slice()));
        i += 1;
    }
    assert(text_views(out@) =~= text_views(texts@));
    out
}

/// Looks up the list of completed focuses that was gathered for a tag.
pub fn find_completed<'a>(lists: &'a Vec<(CountryTag, Vec<Vec<u8>>)>, tag: CountryTag) -> (r:
    Option<&'a Vec<Vec<u8>>>)
    ensures
        match completed_of(list_views(lists@), tag) {
            Some(list) => r matches Some(found) && text_views(found@) == list,
            None => r is None,
        },
{
    let ghost all = list_views(lists@);
    let mut i: usize = lists.len();
    assert(all.take(i as int) == all);
    while i > 0
        invariant
            i <= lists.len(),
            all == list_views(lists@),
            completed_of(all, tag) == completed_of(all.take(i as int), tag),
        decreases i,
    {
        i -= 1;
        let ghost upto = all.take(i + 1);
        assert(upto.last() == all[i as int]);
        assert(upto.drop_last() == all.take(i as int));
        let other: CountryTag = lists[i].0;
        if other.first == tag.first && other.second == tag.second && other.third == tag.third {
            return Some(&lists[i].1);
        }
    }
    assert(all.take(0).len() == 0);
    None
}

/// Puts a list of completed focuses in place of the one that a country
/// holds. A country without a focus stays as it is.
pub fn set_completed(country: EnhancedCountry, list: Option<&Vec<Vec<u8>>>) -> (r:
    EnhancedCountry)
    ensures
        r@ == with_completed(
            country@,
            match list {
                Some(texts) => Some(text_views(texts@)),
                None => None,
            },
        ),
{
    match list {
        None => country,
        Some(texts) => {
            let focus: Option<Focus> = match country.focus {
                Some(focus) => Some(
                    Focus {
                        progress: focus.progress,
                        current: focus.current,
                        paused: focus.paused,
                        completed: copy_texts(texts),
                    },
                ),
                None => None,
            };
            EnhancedCountry {
                stability: country.stability,
                war_support: country.war_support,
                variables: country.variables,
                politics: country.politics,
                focus,
            }
        },
    }
}

/// Attaches lists of completed focuses to the countries of a save. Each
/// country gets the list that was gathered for its own tag, and no list is
/// ever attached to a country with another tag.
pub fn attach_completed(save: EnhancedHoi4Save, lists: &Vec<(CountryTag, Vec<Vec<u8>>)>) -> (r:
    EnhancedHoi4Save)
    ensures
        r@ == completed_save(save@, list_views(lists@)),
{
    let mut countries: Vec<(CountryTag, EnhancedCountry)> = save.countries;
    let ghost orig = country_views(countries@);
    let ghost given = list_views(lists@);
    let n: usize = countries.len();
    let mut i: usize = 0;
    while i < n
        invariant
            i <= n,
            n == countries.len(),
            n == orig.len(),
            given == list_views(lists@),
            forall|k: int|
                0 <= k < i ==> countries@[k].0 == orig[k].0 && countries@[k].1@ == with_completed(
                    orig[k].1,
                    completed_of(given, orig[k].0),
                ),
            forall|k: int|
                i <= k < n ==> countries@[k].0 == orig[k].0 && countries@[k].1@ == orig[k].1,
        decreases n - i,
    {
        let tag: CountryTag = countries[i].0;
        let mut taken: (CountryTag, EnhancedCountry) = (tag, blank_country());
        countries.set_and_swap(i, &mut taken);
        let done: EnhancedCountry = set_completed(taken.1, find_completed(lists, tag));
        countries.set(i, (tag, done));
        i += 1;
    }
    assert(country_views(countries@) =~= completed_countries(orig, given));
    EnhancedHoi4Save {
        player: save.player,
        date: save.date,
        countries,
        fired_event_names: save.fired_event_names,
    }
}

} // verus!
