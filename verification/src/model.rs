//! The typed records that a save resolves to.
//!
//! Text is held as the bytes of the source, which the tokenizer has checked
//! to be UTF-8. An optional field that is `None` was not present in the
//! save, which is not the same as zero.

use crate::decimal::Decimal;
use vstd::prelude::*;

verus! {

/// The view of an optional text.
pub open spec fn opt_text(text: Option<Vec<u8>>) -> Option<Seq<u8>> {
    match text {
        Some(bytes) => Some(bytes@),
        None => None,
    }
}

/// The views of a sequence of texts, in order.
pub open spec fn text_views(texts: Seq<Vec<u8>>) -> Seq<Seq<u8>> {
    Seq::new(texts.len(), |i: int| texts[i]@)
}

/// Whether a byte may stand in a country tag: an ASCII letter, an ASCII
/// digit, or `-`.
pub open spec fn is_tag_byte(b: u8) -> bool {
    (0x30 <= b <= 0x39) || (0x41 <= b <= 0x5a) || (0x61 <= b <= 0x7a) || b == 0x2d
}

/// Whether the bytes are a country tag: three tag bytes.
pub open spec fn is_tag(bytes: Seq<u8>) -> bool {
    bytes.len() == 3 && is_tag_byte(bytes[0]) && is_tag_byte(bytes[1]) && is_tag_byte(bytes[2])
}

/// A country's unique tag of three bytes, such as `GER`.
#[derive(Clone, Copy, Debug, PartialEq, Eq, Hash, Structural)]
pub struct CountryTag {
    pub first: u8,
    pub second: u8,
    pub third: u8,
}

impl CountryTag {
    /// The three bytes of the tag.
    pub open spec fn bytes(self) -> Seq<u8> {
        seq![self.first, self.second, self.third]
    }

    /// Whether each byte of the tag may stand in a tag.
    pub open spec fn wf(self) -> bool {
        is_tag_byte(self.first) && is_tag_byte(self.second) && is_tag_byte(self.third)
    }

    /// The three bytes of the tag.
    pub fn to_bytes(&self) -> (r: Vec<u8>)
        ensures
            r@ == self.bytes(),
    {
        let mut r: Vec<u8> = Vec::new();
        r.push(self.first);
        r.push(self.second);
        r.push(self.third);
        assert(r@ =~= self.bytes());
        r
    }
}

/// An in-game date. The hour runs from 1 to 24; 0 says that the date names
/// no hour.
#[derive(Clone, Copy, Debug, PartialEq, Eq, Structural)]
pub struct GameDate {
    pub year: u16,
    pub month: u8,
    pub day: u8,
    pub hour: u8,
}

impl GameDate {
    /// Whether month, day and hour are in range.
    pub open spec fn wf(self) -> bool {
        1 <= self.month <= 12 && 1 <= self.day <= 31 && self.hour <= 24
    }
}

/// A character that a record refers to by number. `name` is attached from
/// the character directory; it is `None` until then, and stays `None` where
/// the directory does not know the number.
#[derive(Clone, Debug, PartialEq, Eq)]
pub struct Character {
    pub id: Option<i32>,
    pub kind: Option<i32>,
    pub name: Option<Vec<u8>>,
}

/// The mathematical value of a [`Character`].
pub struct CharacterView {
    pub id: Option<i32>,
    pub kind: Option<i32>,
    pub name: Option<Seq<u8>>,
}

impl View for Character {
    type V = CharacterView;

    open spec fn view(&self) -> CharacterView {
        CharacterView { id: self.id, kind: self.kind, name: opt_text(self.name) }
    }
}

/// The leader that a party puts forward.
#[derive(Clone, Debug, PartialEq, Eq)]
pub struct CountryLeader {
    pub ideology: Option<Vec<u8>>,
    pub character: Option<Character>,
}

/// The mathematical value of a [`CountryLeader`].
pub struct CountryLeaderView {
    pub ideology: Option<Seq<u8>>,
    pub character: Option<CharacterView>,
}

impl View for CountryLeader {
    type V = CountryLeaderView;

    open spec fn view(&self) -> CountryLeaderView {
        CountryLeaderView {
            ideology: opt_text(self.ideology),
            character: match self.character {
                Some(c) => Some(c@),
                None => None,
            },
        }
    }
}

/// The views of a sequence of leaders, in order.
pub open spec fn leader_views(leaders: Seq<CountryLeader>) -> Seq<CountryLeaderView> {
    Seq::new(leaders.len(), |i: int| leaders[i]@)
}

/// One political party of a country.
#[derive(Clone, Debug, PartialEq, Eq)]
pub struct Party {
    pub popularity: Option<Decimal>,
    pub country_leader: Option<Vec<CountryLeader>>,
}

/// The mathematical value of a [`Party`].
pub struct PartyView {
    pub popularity: Option<Decimal>,
    pub country_leader: Option<Seq<CountryLeaderView>>,
}

impl View for Party {
    type V = PartyView;

    open spec fn view(&self) -> PartyView {
        PartyView {
            popularity: self.popularity,
            country_leader: match self.country_leader {
                Some(leaders) => Some(leader_views(leaders@)),
                None => None,
            },
        }
    }
}

/// The view of an optional party.
pub open spec fn opt_party(party: Option<Party>) -> Option<PartyView> {
    match party {
        Some(p) => Some(p@),
        None => None,
    }
}

/// The four parties of a country.
#[derive(Clone, Debug, PartialEq, Eq)]
pub struct Parties {
    pub democratic: Option<Party>,
    pub communism: Option<Party>,
    pub fascism: Option<Party>,
    pub neutrality: Option<Party>,
}

/// The mathematical value of a [`Parties`].
pub struct PartiesView {
    pub democratic: Option<PartyView>,
    pub communism: Option<PartyView>,
    pub fascism: Option<PartyView>,
    pub neutrality: Option<PartyView>,
}

impl View for Parties {
    type V = PartiesView;

    open spec fn view(&self) -> PartiesView {
        PartiesView {
            democratic: opt_party(self.democratic),
            communism: opt_party(self.communism),
            fascism: opt_party(self.fascism),
            neutrality: opt_party(self.neutrality),
        }
    }
}

/// The politics of a country.
#[derive(Clone, Debug, PartialEq, Eq)]
pub struct Politics {
    pub ruling_party: Option<Vec<u8>>,
    pub political_power: Option<Decimal>,
    pub parties: Option<Parties>,
    pub ideas: Option<Vec<Vec<u8>>>,
    pub last_election: Option<Vec<u8>>,
    pub elections_allowed: Option<bool>,
}

/// The mathematical value of a [`Politics`].
pub struct PoliticsView {
    pub ruling_party: Option<Seq<u8>>,
    pub political_power: Option<Decimal>,
    pub parties: Option<PartiesView>,
    pub ideas: Option<Seq<Seq<u8>>>,
    pub last_election: Option<Seq<u8>>,
    pub elections_allowed: Option<bool>,
}

impl View for Politics {
    type V = PoliticsView;

    open spec fn view(&self) -> PoliticsView {
        PoliticsView {
            ruling_party: opt_text(self.ruling_party),
            political_power: self.political_power,
            parties: match self.parties {
                Some(p) => Some(p@),
                None => None,
            },
            ideas: match self.ideas {
                Some(ideas) => Some(text_views(ideas@)),
                None => None,
            },
            last_election: opt_text(self.last_election),
            elections_allowed: self.elections_allowed,
        }
    }
}

/// The national focus of a country: the one in progress, the one paused, and
/// those completed, in the order in which the save lists them.
#[derive(Clone, Debug, PartialEq, Eq)]
pub struct Focus {
    pub progress: Option<Decimal>,
    pub current: Option<Vec<u8>>,
    pub paused: Option<Vec<u8>>,
    pub completed: Vec<Vec<u8>>,
}

/// The mathematical value of a [`Focus`].
pub struct FocusView {
    pub progress: Option<Decimal>,
    pub current: Option<Seq<u8>>,
    pub paused: Option<Seq<u8>>,
    pub completed: Seq<Seq<u8>>,
}

impl View for Focus {
    type V = FocusView;

    open spec fn view(&self) -> FocusView {
        FocusView {
            progress: self.progress,
            current: opt_text(self.current),
            paused: opt_text(self.paused),
            completed: text_views(self.completed@),
        }
    }
}

/// The views of a sequence of named numbers, in order.
pub open spec fn variable_views(variables: Seq<(Vec<u8>, Decimal)>) -> Seq<(Seq<u8>, Decimal)> {
    Seq::new(variables.len(), |i: int| (variables[i].0@, variables[i].1))
}

/// One country of a save. Stability and war support lie between zero and
/// one; one half stands for "no data".
#[derive(Clone, Debug, PartialEq, Eq)]
pub struct EnhancedCountry {
    pub stability: Decimal,
    pub war_support: Decimal,
    pub variables: Vec<(Vec<u8>, Decimal)>,
    pub politics: Option<Politics>,
    pub focus: Option<Focus>,
}

/// The mathematical value of a [`EnhancedCountry`].
pub struct EnhancedCountryView {
    pub stability: Decimal,
    pub war_support: Decimal,
    pub variables: Seq<(Seq<u8>, Decimal)>,
    pub politics: Option<PoliticsView>,
    pub focus: Option<FocusView>,
}

impl View for EnhancedCountry {
    type V = EnhancedCountryView;

    open spec fn view(&self) -> EnhancedCountryView {
        EnhancedCountryView {
            stability: self.stability,
            war_support: self.war_support,
            variables: variable_views(self.variables@),
            politics: match self.politics {
                Some(p) => Some(p@),
                None => None,
            },
            focus: match self.focus {
                Some(f) => Some(f@),
                None => None,
            },
        }
    }
}

/// The number that the variables hold for a name: the last one where the
/// name stands more than once, `None` where it does not stand.
pub open spec fn variable_of(variables: Seq<(Seq<u8>, Decimal)>, name: Seq<u8>) -> Option<
    Decimal,
>
    decreases variables.len(),
{
    if variables.len() == 0 {
        None
    } else if variables.last().0 == name {
        Some(variables.last().1)
    } else {
        variable_of(variables.drop_last(), name)
    }
}

impl EnhancedCountry {
    /// Looks up the number that the country's variables hold for a name.
    pub fn variable(&self, name: &[u8]) -> (r: Option<Decimal>)
        ensures
            r == variable_of(self@.variables, name@),
    {
        let ghost all = variable_views(self.variables@);
        let mut i: usize = self.variables.len();
        assert(all.take(i as int) == all);
        while i > 0
            invariant
                i <= self.variables.len(),
                all == variable_views(self.variables@),
                variable_of(all, name@) == variable_of(all.take(i as int), name@),
            decreases i,
        {
            i -= 1;
            let ghost upto = all.take(i + 1);
            assert(upto.last() == all[i as int]);
            assert(upto.drop_last() == all.take(i as int));
            if crate::schema::lookup::bytes_eq(self.variables[i].0.as_slice(), name) {
                return Some(self.variables[i].1);
            }
        }
        assert(all.take(0).len() == 0);
        None
    }
}

impl EnhancedCountryView {
    /// Whether stability and war support are numbers between zero and one.
    pub open spec fn wf(self) -> bool {
        &&& self.stability.wf()
        &&& self.stability.is_fraction_spec()
        &&& self.war_support.wf()
        &&& self.war_support.is_fraction_spec()
    }
}

/// The views of a sequence of countries with their tags, in order.
pub open spec fn country_views(countries: Seq<(CountryTag, EnhancedCountry)>) -> Seq<
    (CountryTag, EnhancedCountryView),
> {
    Seq::new(countries.len(), |i: int| (countries[i].0, countries[i].1@))
}

/// The tags of a sequence of countries, in order.
pub open spec fn tags_of(countries: Seq<(CountryTag, EnhancedCountryView)>) -> Seq<CountryTag> {
    Seq::new(countries.len(), |i: int| countries[i].0)
}

/// A decoded save: who plays, the date, the countries in the order in which
/// the save lists them, and the names of the events that have fired.
#[derive(Clone, Debug, PartialEq, Eq)]
pub struct EnhancedHoi4Save {
    pub player: Vec<u8>,
    pub date: GameDate,
    pub countries: Vec<(CountryTag, EnhancedCountry)>,
    pub fired_event_names: Vec<Vec<u8>>,
}

/// The mathematical value of a [`EnhancedHoi4Save`].
pub struct EnhancedHoi4SaveView {
    pub player: Seq<u8>,
    pub date: GameDate,
    pub countries: Seq<(CountryTag, EnhancedCountryView)>,
    pub fired_event_names: Seq<Seq<u8>>,
}

impl View for EnhancedHoi4Save {
    type V = EnhancedHoi4SaveView;

    open spec fn view(&self) -> EnhancedHoi4SaveView {
        EnhancedHoi4SaveView {
            player: self.player@,
            date: self.date,
            countries: country_views(self.countries@),
            fired_event_names: text_views(self.fired_event_names@),
        }
    }
}

impl EnhancedHoi4SaveView {
    /// Whether no tag stands twice and every country is well formed.
    pub open spec fn wf(self) -> bool {
        &&& tags_of(self.countries).no_duplicates()
        &&& forall|i: int|
            0 <= i < self.countries.len() ==> (#[trigger] self.countries[i]).0.wf()
                && self.countries[i].1.wf()
        &&& self.date.wf()
    }
}

} // verus!
