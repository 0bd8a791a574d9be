//! Resolving the records of a save, from a character up to the save
//! itself.

use crate::schema::convert::{
    as_number,
    mismatch,
    node_number,
    node_shape,
    parse_tag,
    shape_of,
    tag_of,
};
use crate::schema::fields::{
    agrees,
    bool_field,
    bool_field_spec,
    date_field,
    date_field_spec,
    extend,
    fraction_field,
    fraction_field_spec,
    integer_field,
    integer_field_spec,
    number_field,
    number_field_spec,
    required_text,
    required_text_spec,
    text_field,
    text_field_spec,
    text_list,
    text_list_spec,
};
use crate::schema::lookup::{
    borrowed_views,
    collect_values,
    find_field,
    members_of,
    node_members,
    occurrence,
    text_of,
    unquote,
    values_of,
    Found,
    Occurrence,
};
use crate::decimal::Decimal;
use crate::error::{DecodeError, Field, Shape};
use crate::model::{
    country_views, leader_views, opt_party, tags_of, text_views, variable_views, Character,
    CharacterView, CountryLeader, CountryLeaderView, CountryTag, EnhancedCountry,
    EnhancedCountryView, EnhancedHoi4Save, EnhancedHoi4SaveView, Focus, FocusView, GameDate,
    Parties, PartiesView, Party, PartyView, Politics, PoliticsView,
};
use crate::tree::{lemma_array_view, member_views, node_views, Node, Tree};
use vstd::prelude::*;
use vstd::slice::slice_to_vec;

verus! {

/// A character: an object with a number `id` and a number `type`, both
/// optional. Its name is not part of the record in the save.
pub open spec fn character_spec(t: Tree) -> Result<CharacterView, DecodeError> {
    match members_of(t) {
        None => Err(mismatch(Field::Character, Shape::Object, shape_of(t))),
        Some(entries) => match integer_field_spec(entries, Field::Id) {
            Err(error) => Err(error),
            Ok(id) => match integer_field_spec(entries, Field::Kind) {
                Err(error) => Err(error),
                Ok(kind) => Ok(CharacterView { id, kind, name: None }),
            },
        },
    }
}

/// Resolves a character.
pub fn resolve_character(node: &Node) -> (r: Result<Character, DecodeError>)
    ensures
        agrees(r, character_spec(node@)),
{
    let empty: Vec<(Vec<u8>, Node)> = Vec::new();
    match node_members(node, &empty) {
        None => Err(
            DecodeError::SchemaMismatch {
                field: Field::Character,
                expected: Shape::Object,
                actual: node_shape(node),
            },
        ),
        Some(entries) => {
            let id: Option<i32> = match integer_field(entries, Field::Id) {
                Err(error) => {
                    return Err(error);
                },
                Ok(id) => id,
            };
            let kind: Option<i32> = match integer_field(entries, Field::Kind) {
                Err(error) => {
                    return Err(error);
                },
                Ok(kind) => kind,
            };
            Ok(Character { id, kind, name: None })
        },
    }
}

/// The optional character of a leader.
pub open spec fn character_field_spec(entries: Seq<(Seq<u8>, Tree)>) -> Result<
    Option<CharacterView>,
    DecodeError,
> {
    match occurrence(entries, Field::Character.key()) {
        Occurrence::Absent => Ok(None),
        Occurrence::Repeated => Err(mismatch(Field::Character, Shape::Object, Shape::Repeated)),
        Occurrence::One(t) => match character_spec(t) {
            Ok(character) => Ok(Some(character)),
            Err(error) => Err(error),
        },
    }
}

/// A leader: an object with an optional text `ideology` and an optional
/// `character`.
pub open spec fn leader_spec(t: Tree) -> Result<CountryLeaderView, DecodeError> {
    match members_of(t) {
        None => Err(mismatch(Field::CountryLeader, Shape::Object, shape_of(t))),
        Some(entries) => match text_field_spec(entries, Field::Ideology) {
            Err(error) => Err(error),
            Ok(ideology) => match character_field_spec(entries) {
                Err(error) => Err(error),
                Ok(character) => Ok(CountryLeaderView { ideology, character }),
            },
        },
    }
}

/// Resolves a leader.
pub fn resolve_leader(node: &Node) -> (r: Result<CountryLeader, DecodeError>)
    ensures
        agrees(r, leader_spec(node@)),
{
    let empty: Vec<(Vec<u8>, Node)> = Vec::new();
    match node_members(node, &empty) {
        None => Err(
            DecodeError::SchemaMismatch {
                field: Field::CountryLeader,
                expected: Shape::Object,
                actual: node_shape(node),
            },
        ),
        Some(entries) => {
            let ideology: Option<Vec<u8>> = match text_field(entries, Field::Ideology) {
                Err(error) => {
                    return Err(error);
                },
                Ok(ideology) => ideology,
            };
            let character: Option<Character> = match find_field(entries, Field::Character) {
                Found::Absent => None,
                Found::Repeated => {
                    return Err(
                        DecodeError::SchemaMismatch {
                            field: Field::Character,
                            expected: Shape::Object,
                            actual: Shape::Repeated,
                        },
                    );
                },
                Found::One(found) => match resolve_character(found) {
                    Err(error) => {
                        return Err(error);
                    },
                    Ok(character) => Some(character),
                },
            };
            Ok(CountryLeader { ideology, character })
        },
    }
}

/// The nodes that the values of a repeated field list: of an array its
/// items, any other value itself.
pub open spec fn listed_nodes(values: Seq<Tree>) -> Seq<Tree>
    decreases values.len(),
{
    if values.len() == 0 {
        Seq::empty()
    } else {
        (match values[0] {
            Tree::Array(elements) => elements,
            _ => seq![values[0]],
        }) + listed_nodes(values.skip(1))
    }
}

/// Lists the nodes that the values of a repeated field hold.
pub fn list_nodes<'a>(values: &Vec<&'a Node>) -> (r: Vec<&'a Node>)
    ensures
        borrowed_views(r@) == listed_nodes(borrowed_views(values@)),
{
    let ghost all = borrowed_views(values@);
    let mut out: Vec<&'a Node> = Vec::new();
    let mut i: usize = 0;
    assert(all.skip(0) == all);
    assert(borrowed_views(out@) + listed_nodes(all) == listed_nodes(all));
    while i < values.len()
        invariant
            i <= values.len(),
            all == borrowed_views(values@),
            listed_nodes(all) == borrowed_views(out@) + listed_nodes(all.skip(i as int)),
        decreases values.len() - i,
    {
        let ghost before = borrowed_views(out@);
        let ghost rest = all.skip(i as int);
        assert(rest[0] == all[i as int]);
        assert(rest.skip(1) == all.skip(i + 1));
        let value: &'a Node = values[i];
        match value {
            Node::Array(elements) => {
                let ghost items = node_views(elements@);
                proof {
                    lemma_array_view(*value);
                }
                let mut j: usize = 0;
                assert(items.take(0) =~= Seq::<Tree>::empty());
                assert(before + items.take(0) == before);
                while j < elements.len()
                    invariant
                        j <= elements.len(),
                        items == node_views(elements@),
                        borrowed_views(out@) == before + items.take(j as int),
                    decreases elements.len() - j,
                {
                    let ghost so_far = borrowed_views(out@);
                    out.push(&elements[j]);
                    assert(borrowed_views(out@) == so_far + seq![items[j as int]]);
                    assert(items.take(j + 1) == items.take(j as int) + seq![items[j as int]]);
                    j += 1;
                }
                assert(items.take(elements.len() as int) == items);
                assert(before + (items + listed_nodes(rest.skip(1))) == (before + items)
                    + listed_nodes(rest.skip(1)));
            },
            _ => {
                out.push(value);
                assert(borrowed_views(out@) == before + seq![rest[0]]);
                assert(before + (seq![rest[0]] + listed_nodes(rest.skip(1))) == (before
                    + seq![rest[0]]) + listed_nodes(rest.skip(1)));
            },
        }
        i += 1;
    }
    assert(all.skip(values.len() as int).len() == 0);
    assert(borrowed_views(out@) + Seq::<Tree>::empty() == borrowed_views(out@));
    out
}

/// The leaders that a sequence of nodes resolves to, or the first mismatch.
pub open spec fn leaders_spec(nodes: Seq<Tree>) -> Result<Seq<CountryLeaderView>, DecodeError>
    decreases nodes.len(),
{
    if nodes.len() == 0 {
        Ok(Seq::empty())
    } else {
        match leader_spec(nodes[0]) {
            Err(error) => Err(error),
            Ok(first) => extend(seq![first], leaders_spec(nodes.skip(1))),
        }
    }
}

/// The leaders of a party: `None` where the key `country_leader` is absent,
/// else one leader for each time it stands, and for each item where its
/// value is an array.
pub open spec fn leader_list_spec(entries: Seq<(Seq<u8>, Tree)>) -> Result<
    Option<Seq<CountryLeaderView>>,
    DecodeError,
> {
    let values = values_of(entries, Field::CountryLeader.key());
    if values.len() == 0 {
        Ok(None)
    } else {
        match leaders_spec(listed_nodes(values)) {
            Ok(leaders) => Ok(Some(leaders)),
            Err(error) => Err(error),
        }
    }
}

/// Resolves the leaders of a party.
pub fn leader_list(entries: &Vec<(Vec<u8>, Node)>) -> (r: Result<
    Option<Vec<CountryLeader>>,
    DecodeError,
>)
    ensures
        match leader_list_spec(member_views(entries@)) {
            Ok(None) => r matches Ok(None),
            Ok(Some(leaders)) => r matches Ok(Some(x)) && leader_views(x@) == leaders,
            Err(error) => r matches Err(e) && e == error,
        },
{
    let values: Vec<&Node> = collect_values(entries, Field::CountryLeader.name().as_bytes());
    if values.len() == 0 {
        return Ok(None);
    }
    let nodes: Vec<&Node> = list_nodes(&values);
    let ghost all = borrowed_views(nodes@);
    let mut out: Vec<CountryLeader> = Vec::new();
    let mut i: usize = 0;
    assert(all.skip(0) == all);
    assert(leader_views(out@) =~= Seq::<CountryLeaderView>::empty());
    assert(extend(leader_views(out@), leaders_spec(all)) == leaders_spec(all)) by {
        if leaders_spec(all) is Ok {
            assert(leader_views(out@) + leaders_spec(all)->Ok_0 == leaders_spec(all)->Ok_0);
        }
    }
    while i < nodes.len()
        invariant
            i <= nodes.len(),
            values.len() > 0,
            borrowed_views(values@) == values_of(
                member_views(entries@),
                Field::CountryLeader.key(),
            ),
            all == borrowed_views(nodes@),
            all == listed_nodes(borrowed_views(values@)),
            leaders_spec(all) == extend(leader_views(out@), leaders_spec(all.skip(i as int))),
        decreases nodes.len() - i,
    {
        let ghost before = leader_views(out@);
        let ghost rest = all.skip(i as int);
        assert(rest[0] == all[i as int]);
        assert(rest.skip(1) == all.skip(i + 1));
        match resolve_leader(nodes[i]) {
            Err(error) => {
                return Err(error);
            },
            Ok(leader) => {
                out.push(leader);
                proof {
                    let one = seq![leader@];
                    assert(leader_views(out@) =~= before + one);
                    let tail = leaders_spec(rest.skip(1));
                    if tail is Ok {
                        assert(before + (one + tail->Ok_0) == (before + one) + tail->Ok_0);
                    }
                }
            },
        }
        i += 1;
    }
    assert(all.skip(nodes.len() as int).len() == 0);
    assert(leader_views(out@) + Seq::<CountryLeaderView>::empty() == leader_views(out@));
    Ok(Some(out))
}

/// A party: an object with an optional number `popularity` and any number
/// of leaders. `field` is the key under which the party stands.
pub open spec fn party_spec(t: Tree, field: Field) -> Result<PartyView, DecodeError> {
    match members_of(t) {
        None => Err(mismatch(field, Shape::Object, shape_of(t))),
        Some(entries) => match number_field_spec(entries, Field::Popularity) {
            Err(error) => Err(error),
            Ok(popularity) => match leader_list_spec(entries) {
                Err(error) => Err(error),
                Ok(country_leader) => Ok(PartyView { popularity, country_leader }),
            },
        },
    }
}

/// The optional party that stands under the key of `field`.
pub open spec fn party_field_spec(entries: Seq<(Seq<u8>, Tree)>, field: Field) -> Result<
    Option<PartyView>,
    DecodeError,
> {
    match occurrence(entries, field.key()) {
        Occurrence::Absent => Ok(None),
        Occurrence::Repeated => Err(mismatch(field, Shape::Object, Shape::Repeated)),
        Occurrence::One(t) => match party_spec(t, field) {
            Ok(party) => Ok(Some(party)),
            Err(error) => Err(error),
        },
    }
}

/// Resolves a party that stands under the key of `field`.
pub fn resolve_party(node: &Node, field: Field) -> (r: Result<Party, DecodeError>)
    ensures
        agrees(r, party_spec(node@, field)),
{
    let empty: Vec<(Vec<u8>, Node)> = Vec::new();
    match node_members(node, &empty) {
        None => Err(
            DecodeError::SchemaMismatch {
                field,
                expected: Shape::Object,
                actual: node_shape(node),
            },
        ),
        Some(entries) => {
            let popularity: Option<Decimal> = match number_field(entries, Field::Popularity) {
                Err(error) => {
                    return Err(error);
                },
                Ok(popularity) => popularity,
            };
            let country_leader: Option<Vec<CountryLeader>> = match leader_list(entries) {
                Err(error) => {
                    return Err(error);
                },
                Ok(leaders) => leaders,
            };
            Ok(Party { popularity, country_leader })
        },
    }
}

/// Resolves the optional party that stands under the key of `field`.
pub fn party_field(entries: &Vec<(Vec<u8>, Node)>, field: Field) -> (r: Result<
    Option<Party>,
    DecodeError,
>)
    ensures
        match party_field_spec(member_views(entries@), field) {
            Ok(party) => r matches Ok(x) && opt_party(x) == party,
            Err(error) => r matches Err(e) && e == error,
        },
{
    match find_field(entries, field) {
        Found::Absent => Ok(None),
        Found::Repeated => Err(
            DecodeError::SchemaMismatch {
                field,
                expected: Shape::Object,
                actual: Shape::Repeated,
            },
        ),
        Found::One(found) => match resolve_party(found, field) {
            Err(error) => Err(error),
            Ok(party) => Ok(Some(party)),
        },
    }
}

/// The parties of a country: an object with up to four parties.
pub open spec fn parties_spec(t: Tree) -> Result<PartiesView, DecodeError> {
    match members_of(t) {
        None => Err(mismatch(Field::Parties, Shape::Object, shape_of(t))),
        Some(entries) => match party_field_spec(entries, Field::Democratic) {
            Err(error) => Err(error),
            Ok(democratic) => match party_field_spec(entries, Field::Communism) {
                Err(error) => Err(error),
                Ok(communism) => match party_field_spec(entries, Field::Fascism) {
                    Err(error) => Err(error),
                    Ok(fascism) => match party_field_spec(entries, Field::Neutrality) {
                        Err(error) => Err(error),
                        Ok(neutrality) => Ok(
                            PartiesView { democratic, communism, fascism, neutrality },
                        ),
                    },
                },
            },
        },
    }
}

/// Resolves the parties of a country.
pub fn resolve_parties(node: &Node) -> (r: Result<Parties, DecodeError>)
    ensures
        agrees(r, parties_spec(node@)),
{
    let empty: Vec<(Vec<u8>, Node)> = Vec::new();
    match node_members(node, &empty) {
        None => Err(
            DecodeError::SchemaMismatch {
                field: Field::Parties,
                expected: Shape::Object,
                actual: node_shape(node),
            },
        ),
        Some(entries) => {
            let democratic: Option<Party> = match party_field(entries, Field::Democratic) {
                Err(error) => {
                    return Err(error);
                },
                Ok(party) => party,
            };
            let communism: Option<Party> = match party_field(entries, Field::Communism) {
                Err(error) => {
                    return Err(error);
                },
                Ok(party) => party,
            };
            let fascism: Option<Party> = match party_field(entries, Field::Fascism) {
                Err(error) => {
                    return Err(error);
                },
                Ok(party) => party,
            };
            let neutrality: Option<Party> = match party_field(entries, Field::Neutrality) {
                Err(error) => {
                    return Err(error);
                },
                Ok(party) => party,
            };
            Ok(Parties { democratic, communism, fascism, neutrality })
        },
    }
}

/// The optional parties of a country's politics.
pub open spec fn parties_field_spec(entries: Seq<(Seq<u8>, Tree)>) -> Result<
    Option<PartiesView>,
    DecodeError,
> {
    match occurrence(entries, Field::Parties.key()) {
        Occurrence::Absent => Ok(None),
        Occurrence::Repeated => Err(mismatch(Field::Parties, Shape::Object, Shape::Repeated)),
        Occurrence::One(t) => match parties_spec(t) {
            Ok(parties) => Ok(Some(parties)),
            Err(error) => Err(error),
        },
    }
}

/// The politics of a country: an object of optional fields.
pub open spec fn politics_spec(t: Tree) -> Result<PoliticsView, DecodeError> {
    match members_of(t) {
        None => Err(mismatch(Field::Politics, Shape::Object, shape_of(t))),
        Some(entries) => match text_field_spec(entries, Field::RulingParty) {
            Err(error) => Err(error),
            Ok(ruling_party) => match number_field_spec(entries, Field::PoliticalPower) {
                Err(error) => Err(error),
                Ok(political_power) => match parties_field_spec(entries) {
                    Err(error) => Err(error),
                    Ok(parties) => match text_list_spec(entries, Field::Ideas) {
                        Err(error) => Err(error),
                        Ok(ideas) => match text_field_spec(entries, Field::LastElection) {
                            Err(error) => Err(error),
                            Ok(last_election) => match bool_field_spec(
                                entries,
                                Field::ElectionsAllowed,
                            ) {
                                Err(error) => Err(error),
                                Ok(elections_allowed) => Ok(
                                    PoliticsView {
                                        ruling_party,
                                        political_power,
                                        parties,
                                        ideas,
                                        last_election,
                                        elections_allowed,
                                    },
                                ),
                            },
                        },
                    },
                },
            },
        },
    }
}

/// Resolves the politics of a country.
pub fn resolve_politics(node: &Node) -> (r: Result<Politics, DecodeError>)
    ensures
        agrees(r, politics_spec(node@)),
{
    let empty: Vec<(Vec<u8>, Node)> = Vec::new();
    match node_members(node, &empty) {
        None => Err(
            DecodeError::SchemaMismatch {
                field: Field::Politics,
                expected: Shape::Object,
                actual: node_shape(node),
            },
        ),
        Some(entries) => {
            let ruling_party: Option<Vec<u8>> = match text_field(entries, Field::RulingParty) {
                Err(error) => {
                    return Err(error);
                },
                Ok(text) => text,
            };
            let political_power: Option<Decimal> = match number_field(
                entries,
                Field::PoliticalPower,
            ) {
                Err(error) => {
                    return Err(error);
                },
                Ok(number) => number,
            };
            let parties: Option<Parties> = match find_field(entries, Field::Parties) {
                Found::Absent => None,
                Found::Repeated => {
                    return Err(
                        DecodeError::SchemaMismatch {
                            field: Field::Parties,
                            expected: Shape::Object,
                            actual: Shape::Repeated,
                        },
                    );
                },
                Found::One(found) => match resolve_parties(found) {
                    Err(error) => {
                        return Err(error);
                    },
                    Ok(parties) => Some(parties),
                },
            };
            let ideas: Option<Vec<Vec<u8>>> = match text_list(entries, Field::Ideas) {
                Err(error) => {
                    return Err(error);
                },
                Ok(ideas) => ideas,
            };
            let last_election: Option<Vec<u8>> = match text_field(entries, Field::LastElection) {
                Err(error) => {
                    return Err(error);
                },
                Ok(text) => text,
            };
            let elections_allowed: Option<bool> = match bool_field(
                entries,
                Field::ElectionsAllowed,
            ) {
                Err(error) => {
                    return Err(error);
                },
                Ok(b) => b,
            };
            Ok(
                Politics {
                    ruling_party,
                    political_power,
                    parties,
                    ideas,
                    last_election,
                    elections_allowed,
                },
            )
        },
    }
}

/// The focus of a country: an object with an optional number `progress`,
/// optional texts `current` and `paused`, and the texts of every `completed`
/// that stands directly in it.
pub open spec fn focus_spec(t: Tree) -> Result<FocusView, DecodeError> {
    match members_of(t) {
        None => Err(mismatch(Field::Focus, Shape::Object, shape_of(t))),
        Some(entries) => match number_field_spec(entries, Field::Progress) {
            Err(error) => Err(error),
            Ok(progress) => match text_field_spec(entries, Field::Current) {
                Err(error) => Err(error),
                Ok(current) => match text_field_spec(entries, Field::Paused) {
                    Err(error) => Err(error),
                    Ok(paused) => match text_list_spec(entries, Field::Completed) {
                        Err(error) => Err(error),
                        Ok(completed) => Ok(
                            FocusView {
                                progress,
                                current,
                                paused,
                                completed: match completed {
                                    Some(texts) => texts,
                                    None => Seq::empty(),
                                },
                            },
                        ),
                    },
                },
            },
        },
    }
}

/// Resolves the focus of a country.
pub fn resolve_focus(node: &Node) -> (r: Result<Focus, DecodeError>)
    ensures
        agrees(r, focus_spec(node@)),
{
    let empty: Vec<(Vec<u8>, Node)> = Vec::new();
    match node_members(node, &empty) {
        None => Err(
            DecodeError::SchemaMismatch {
                field: Field::Focus,
                expected: Shape::Object,
                actual: node_shape(node),
            },
        ),
        Some(entries) => {
            let progress: Option<Decimal> = match number_field(entries, Field::Progress) {
                Err(error) => {
                    return Err(error);
                },
                Ok(number) => number,
            };
            let current: Option<Vec<u8>> = match text_field(entries, Field::Current) {
                Err(error) => {
                    return Err(error);
                },
                Ok(text) => text,
            };
            let paused: Option<Vec<u8>> = match text_field(entries, Field::Paused) {
                Err(error) => {
                    return Err(error);
                },
                Ok(text) => text,
            };
            let completed: Vec<Vec<u8>> = match text_list(entries, Field::Completed) {
                Err(error) => {
                    return Err(error);
                },
                Ok(Some(texts)) => texts,
                Ok(None) => {
                    let none: Vec<Vec<u8>> = Vec::new();
                    assert(text_views(none@) =~= Seq::<Seq<u8>>::empty());
                    none
                },
            };
            Ok(Focus { progress, current, paused, completed })
        },
    }
}

/// The optional politics of a country.
pub open spec fn politics_field_spec(entries: Seq<(Seq<u8>, Tree)>) -> Result<
    Option<PoliticsView>,
    DecodeError,
> {
    match occurrence(entries, Field::Politics.key()) {
        Occurrence::Absent => Ok(None),
        Occurrence::Repeated => Err(mismatch(Field::Politics, Shape::Object, Shape::Repeated)),
        Occurrence::One(t) => match politics_spec(t) {
            Ok(politics) => Ok(Some(politics)),
            Err(error) => Err(error),
        },
    }
}

/// The optional focus of a country.
pub open spec fn focus_field_spec(entries: Seq<(Seq<u8>, Tree)>) -> Result<
    Option<FocusView>,
    DecodeError,
> {
    match occurrence(entries, Field::Focus.key()) {
        Occurrence::Absent => Ok(None),
        Occurrence::Repeated => Err(mismatch(Field::Focus, Shape::Object, Shape::Repeated)),
        Occurrence::One(t) => match focus_spec(t) {
            Ok(focus) => Ok(Some(focus)),
            Err(error) => Err(error),
        },
    }
}

/// The named numbers that the members of an object hold, in order. A member
/// without a key is passed over; a value that is no number is a mismatch.
pub open spec fn named_numbers(entries: Seq<(Seq<u8>, Tree)>) -> Result<
    Seq<(Seq<u8>, Decimal)>,
    DecodeError,
>
    decreases entries.len(),
{
    if entries.len() == 0 {
        Ok(Seq::empty())
    } else if entries[0].0.len() == 0 {
        named_numbers(entries.skip(1))
    } else {
        match as_number(entries[0].1) {
            None => Err(mismatch(Field::Variables, Shape::Number, shape_of(entries[0].1))),
            Some(number) => extend(
                seq![(text_of(entries[0].0), number)],
                named_numbers(entries.skip(1)),
            ),
        }
    }
}

/// The variables of a country: none where the key is absent, else the named
/// numbers of the one object that stands under it.
pub open spec fn variables_spec(entries: Seq<(Seq<u8>, Tree)>) -> Result<
    Seq<(Seq<u8>, Decimal)>,
    DecodeError,
> {
    match occurrence(entries, Field::Variables.key()) {
        Occurrence::Absent => Ok(Seq::empty()),
        Occurrence::Repeated => Err(mismatch(Field::Variables, Shape::Object, Shape::Repeated)),
        Occurrence::One(t) => match members_of(t) {
            None => Err(mismatch(Field::Variables, Shape::Object, shape_of(t))),
            Some(inner) => named_numbers(inner),
        },
    }
}

/// Resolves the variables of a country.
pub fn resolve_variables(entries: &Vec<(Vec<u8>, Node)>) -> (r: Result<
    Vec<(Vec<u8>, Decimal)>,
    DecodeError,
>)
    ensures
        match variables_spec(member_views(entries@)) {
            Ok(variables) => r matches Ok(x) && variable_views(x@) == variables,
            Err(error) => r matches Err(e) && e == error,
        },
{
    let mut out: Vec<(Vec<u8>, Decimal)> = Vec::new();
    assert(variable_views(out@) =~= Seq::<(Seq<u8>, Decimal)>::empty());
    let empty: Vec<(Vec<u8>, Node)> = Vec::new();
    let found: &Node = match find_field(entries, Field::Variables) {
        Found::Absent => {
            return Ok(out);
        },
        Found::Repeated => {
            return Err(
                DecodeError::SchemaMismatch {
                    field: Field::Variables,
                    expected: Shape::Object,
                    actual: Shape::Repeated,
                },
            );
        },
        Found::One(found) => found,
    };
    let inner: &Vec<(Vec<u8>, Node)> = match node_members(found, &empty) {
        None => {
            return Err(
                DecodeError::SchemaMismatch {
                    field: Field::Variables,
                    expected: Shape::Object,
                    actual: node_shape(found),
                },
            );
        },
        Some(inner) => inner,
    };
    let ghost all = member_views(inner@);
    let mut i: usize = 0;
    assert(all.skip(0) == all);
    assert(extend(variable_views(out@), named_numbers(all)) == named_numbers(all)) by {
        if named_numbers(all) is Ok {
            assert(variable_views(out@) + named_numbers(all)->Ok_0 == named_numbers(all)->Ok_0);
        }
    }
    while i < inner.len()
        invariant
            i <= inner.len(),
            all == member_views(inner@),
            variables_spec(member_views(entries@)) == named_numbers(all),
            named_numbers(all) == extend(
                variable_views(out@),
                named_numbers(all.skip(i as int)),
            ),
        decreases inner.len() - i,
    {
        let ghost before = variable_views(out@);
        let ghost rest = all.skip(i as int);
        assert(rest[0] == all[i as int]);
        assert(rest.skip(1) == all.skip(i + 1));
        if inner[i].0.len() > 0 {
            match node_number(&inner[i].1) {
                None => {
                    return Err(
                        DecodeError::SchemaMismatch {
                            field: Field::Variables,
                            expected: Shape::Number,
                            actual: node_shape(&inner[i].1),
                        },
                    );
                },
                Some(number) => {
                    out.push((slice_to_vec(unquote(inner[i].0.as_slice())), number));
                    proof {
                        let one = seq![(text_of(rest[0].0), number)];
                        assert(variable_views(out@) =~= before + one);
                        let tail = named_numbers(rest.skip(1));
                        if tail is Ok {
                            assert(before + (one + tail->Ok_0) == (before + one) + tail->Ok_0);
                        }
                    }
                },
            }
        }
        i += 1;
    }
    assert(all.skip(inner.len() as int).len() == 0);
    assert(variable_views(out@) + Seq::<(Seq<u8>, Decimal)>::empty() == variable_views(out@));
    Ok(out)
}

/// A country: an object with a stability and a war support between zero
/// and one, each one half where absent, its variables, and optional politics
/// and focus.
pub open spec fn country_spec(t: Tree) -> Result<EnhancedCountryView, DecodeError> {
    match members_of(t) {
        None => Err(mismatch(Field::Countries, Shape::Object, shape_of(t))),
        Some(entries) => match fraction_field_spec(entries, Field::Stability) {
            Err(error) => Err(error),
            Ok(stability) => match fraction_field_spec(entries, Field::WarSupport) {
                Err(error) => Err(error),
                Ok(war_support) => match variables_spec(entries) {
                    Err(error) => Err(error),
                    Ok(variables) => match politics_field_spec(entries) {
                        Err(error) => Err(error),
                        Ok(politics) => match focus_field_spec(entries) {
                            Err(error) => Err(error),
                            Ok(focus) => Ok(
                                EnhancedCountryView {
                                    stability,
                                    war_support,
                                    variables,
                                    politics,
                                    focus,
                                },
                            ),
                        },
                    },
                },
            },
        },
    }
}

/// Resolves a country.
pub fn resolve_country(node: &Node) -> (r: Result<EnhancedCountry, DecodeError>)
    ensures
        agrees(r, country_spec(node@)),
        r matches Ok(country) ==> country@.wf(),
{
    let empty: Vec<(Vec<u8>, Node)> = Vec::new();
    match node_members(node, &empty) {
        None => Err(
            DecodeError::SchemaMismatch {
                field: Field::Countries,
                expected: Shape::Object,
                actual: node_shape(node),
            },
        ),
        Some(entries) => {
            let stability: Decimal = match fraction_field(entries, Field::Stability) {
                Err(error) => {
                    return Err(error);
                },
                Ok(number) => number,
            };
            let war_support: Decimal = match fraction_field(entries, Field::WarSupport) {
                Err(error) => {
                    return Err(error);
                },
                Ok(number) => number,
            };
            let variables: Vec<(Vec<u8>, Decimal)> = match resolve_variables(entries) {
                Err(error) => {
                    return Err(error);
                },
                Ok(variables) => variables,
            };
            let politics: Option<Politics> = match find_field(entries, Field::Politics) {
                Found::Absent => None,
                Found::Repeated => {
                    return Err(
                        DecodeError::SchemaMismatch {
                            field: Field::Politics,
                            expected: Shape::Object,
                            actual: Shape::Repeated,
                        },
                    );
                },
                Found::One(found) => match resolve_politics(found) {
                    Err(error) => {
                        return Err(error);
                    },
                    Ok(politics) => Some(politics),
                },
            };
            let focus: Option<Focus> = match find_field(entries, Field::Focus) {
                Found::Absent => None,
                Found::Repeated => {
                    return Err(
                        DecodeError::SchemaMismatch {
                            field: Field::Focus,
                            expected: Shape::Object,
                            actual: Shape::Repeated,
                        },
                    );
                },
                Found::One(found) => match resolve_focus(found) {
                    Err(error) => {
                        return Err(error);
                    },
                    Ok(focus) => Some(focus),
                },
            };
            Ok(EnhancedCountry { stability, war_support, variables, politics, focus })
        },
    }
}

/// The countries that the members of the countries root resolve to, in the
/// order of the save. `seen` holds the tags that stand before these members.
/// A member without a key is passed over. A key that is no tag is a
/// mismatch, and so is a tag that was seen before: no country is dropped and
/// none is merged with another.
pub open spec fn countries_from(entries: Seq<(Seq<u8>, Tree)>, seen: Seq<CountryTag>) -> Result<
    Seq<(CountryTag, EnhancedCountryView)>,
    DecodeError,
>
    decreases entries.len(),
{
    if entries.len() == 0 {
        Ok(Seq::empty())
    } else if entries[0].0.len() == 0 {
        countries_from(entries.skip(1), seen)
    } else {
        match tag_of(text_of(entries[0].0)) {
            None => Err(
                mismatch(Field::Countries, Shape::Tag, shape_of(Tree::Scalar(entries[0].0))),
            ),
            Some(tag) => if seen.contains(tag) {
                Err(mismatch(Field::Countries, Shape::Tag, Shape::Repeated))
            } else {
                match country_spec(entries[0].1) {
                    Err(error) => Err(error),
                    Ok(country) => extend(
                        seq![(tag, country)],
                        countries_from(entries.skip(1), seen.push(tag)),
                    ),
                }
            },
        }
    }
}

/// The countries of a save: none where the key `countries` is absent, else
/// what the members of the one object under it resolve to.
pub open spec fn countries_spec(entries: Seq<(Seq<u8>, Tree)>) -> Result<
    Seq<(CountryTag, EnhancedCountryView)>,
    DecodeError,
> {
    match occurrence(entries, Field::Countries.key()) {
        Occurrence::Absent => Ok(Seq::empty()),
        Occurrence::Repeated => Err(mismatch(Field::Countries, Shape::Object, Shape::Repeated)),
        Occurrence::One(t) => match members_of(t) {
            None => Err(mismatch(Field::Countries, Shape::Object, shape_of(t))),
            Some(inner) => countries_from(inner, Seq::empty()),
        },
    }
}

/// Whether a tag stands among the countries.
fn has_tag(countries: &Vec<(CountryTag, EnhancedCountry)>, tag: CountryTag) -> (r: bool)
    ensures
        r == tags_of(country_views(countries@)).contains(tag),
{
    let ghost tags = tags_of(country_views(countries@));
    let mut i: usize = 0;
    while i < countries.len()
        invariant
            i <= countries.len(),
            tags == tags_of(country_views(countries@)),
            forall|k: int| 0 <= k < i ==> tags[k] != tag,
        decreases countries.len() - i,
    {
        let other: CountryTag = countries[i].0;
        assert(tags[i as int] == other);
        if other.first == tag.first && other.second == tag.second && other.third == tag.third {
            return true;
        }
        i += 1;
    }
    false
}

/// Resolves the countries of a save.
pub fn resolve_countries(entries: &Vec<(Vec<u8>, Node)>) -> (r: Result<
    Vec<(CountryTag, EnhancedCountry)>,
    DecodeError,
>)
    ensures
        match countries_spec(member_views(entries@)) {
            Ok(countries) => r matches Ok(x) && country_views(x@) == countries,
            Err(error) => r matches Err(e) && e == error,
        },
        r matches Ok(x) ==> {
            &&& tags_of(country_views(x@)).no_duplicates()
            &&& forall|i: int|
                0 <= i < x@.len() ==> (#[trigger] country_views(x@)[i]).0.wf() && country_views(
                    x@,
                )[i].1.wf()
        },
{
    let mut out: Vec<(CountryTag, EnhancedCountry)> = Vec::new();
    assert(country_views(out@) =~= Seq::<(CountryTag, EnhancedCountryView)>::empty());
    let empty: Vec<(Vec<u8>, Node)> = Vec::new();
    let found: &Node = match find_field(entries, Field::Countries) {
        Found::Absent => {
            return Ok(out);
        },
        Found::Repeated => {
            return Err(
                DecodeError::SchemaMismatch {
                    field: Field::Countries,
                    expected: Shape::Object,
                    actual: Shape::Repeated,
                },
            );
        },
        Found::One(found) => found,
    };
    let inner: &Vec<(Vec<u8>, Node)> = match node_members(found, &empty) {
        None => {
            return Err(
                DecodeError::SchemaMismatch {
                    field: Field::Countries,
                    expected: Shape::Object,
                    actual: node_shape(found),
                },
            );
        },
        Some(inner) => inner,
    };
    let ghost all = member_views(inner@);
    let ghost total = countries_from(all, Seq::empty());
    let mut i: usize = 0;
    assert(all.skip(0) == all);
    assert(tags_of(country_views(out@)) =~= Seq::<CountryTag>::empty());
    assert(extend(country_views(out@), total) == total) by {
        if total is Ok {
            assert(country_views(out@) + total->Ok_0 == total->Ok_0);
        }
    }
    while i < inner.len()
        invariant
            i <= inner.len(),
            all == member_views(inner@),
            total == countries_spec(member_views(entries@)),
            total == extend(
                country_views(out@),
                countries_from(all.skip(i as int), tags_of(country_views(out@))),
            ),
            tags_of(country_views(out@)).no_duplicates(),
            forall|k: int|
                0 <= k < out@.len() ==> (#[trigger] country_views(out@)[k]).0.wf()
                    && country_views(out@)[k].1.wf(),
        decreases inner.len() - i,
    {
        let ghost before = country_views(out@);
        let ghost seen = tags_of(before);
        let ghost rest = all.skip(i as int);
        assert(rest[0] == all[i as int]);
        assert(rest.skip(1) == all.skip(i + 1));
        if inner[i].0.len() > 0 {
            let key: &[u8] = inner[i].0.as_slice();
            let tag: CountryTag = match parse_tag(unquote(key)) {
                None => {
                    let ghost key_node = Node::Scalar(inner[i as int].0);
                    let key_shape: Shape = node_shape(&Node::Scalar(slice_to_vec(key)));
                    return Err(
                        DecodeError::SchemaMismatch {
                            field: Field::Countries,
                            expected: Shape::Tag,
                            actual: key_shape,
                        },
                    );
                },
                Some(tag) => tag,
            };
            if has_tag(&out, tag) {
                return Err(
                    DecodeError::SchemaMismatch {
                        field: Field::Countries,
                        expected: Shape::Tag,
                        actual: Shape::Repeated,
                    },
                );
            }
            match resolve_country(&inner[i].1) {
                Err(error) => {
                    return Err(error);
                },
                Ok(country) => {
                    out.push((tag, country));
                    proof {
                        let one = seq![(tag, country@)];
                        assert(country_views(out@) =~= before + one);
                        assert(tags_of(country_views(out@)) =~= seen.push(tag));
                        let tail = countries_from(rest.skip(1), seen.push(tag));
                        if tail is Ok {
                            assert(before + (one + tail->Ok_0) == (before + one) + tail->Ok_0);
                        }
                    }
                },
            }
        }
        i += 1;
    }
    assert(all.skip(inner.len() as int).len() == 0);
    assert(country_views(out@) + Seq::<(CountryTag, EnhancedCountryView)>::empty()
        == country_views(out@));
    Ok(out)
}

/// A save: the root object with a text `player` and a date `date`, both
/// required, the countries, and the names of the events that have fired.
pub open spec fn save_spec(t: Tree) -> Result<EnhancedHoi4SaveView, DecodeError> {
    match members_of(t) {
        None => Err(mismatch(Field::Root, Shape::Object, shape_of(t))),
        Some(entries) => match required_text_spec(entries, Field::Player) {
            Err(error) => Err(error),
            Ok(player) => match date_field_spec(entries, Field::Date) {
                Err(error) => Err(error),
                Ok(date) => match countries_spec(entries) {
                    Err(error) => Err(error),
                    Ok(countries) => match text_list_spec(entries, Field::FiredEventNames) {
                        Err(error) => Err(error),
                        Ok(events) => Ok(
                            EnhancedHoi4SaveView {
                                player,
                                date,
                                countries,
                                fired_event_names: match events {
                                    Some(names) => names,
                                    None => Seq::empty(),
                                },
                            },
                        ),
                    },
                },
            },
        },
    }
}

/// Resolves the root node of a save into its typed record. Fails with a
/// `SchemaMismatch` for the first field, in the order of the record, that
/// does not have its declared shape.
pub fn resolve_save(root: &Node) -> (r: Result<EnhancedHoi4Save, DecodeError>)
    ensures
        agrees(r, save_spec(root@)),
        r matches Ok(save) ==> save@.wf(),
{
    let empty: Vec<(Vec<u8>, Node)> = Vec::new();
    match node_members(root, &empty) {
        None => Err(
            DecodeError::SchemaMismatch {
                field: Field::Root,
                expected: Shape::Object,
                actual: node_shape(root),
            },
        ),
        Some(entries) => {
            let player: Vec<u8> = match required_text(entries, Field::Player) {
                Err(error) => {
                    return Err(error);
                },
                Ok(text) => text,
            };
            let date: GameDate = match date_field(entries, Field::Date) {
                Err(error) => {
                    return Err(error);
                },
                Ok(date) => date,
            };
            let countries: Vec<(CountryTag, EnhancedCountry)> = match resolve_countries(entries) {
                Err(error) => {
                    return Err(error);
                },
                Ok(countries) => countries,
            };
            let fired_event_names: Vec<Vec<u8>> = match text_list(
                entries,
                Field::FiredEventNames,
            ) {
                Err(error) => {
                    return Err(error);
                },
                Ok(Some(names)) => names,
                Ok(None) => {
                    let none: Vec<Vec<u8>> = Vec::new();
                    assert(text_views(none@) =~= Seq::<Seq<u8>>::empty());
                    none
                },
            };
            Ok(EnhancedHoi4Save { player, date, countries, fired_event_names })
        },
    }
}

/// Of the given fields, in order, those whose key does not stand among the
/// members.
pub open spec fn absent_fields(entries: Seq<(Seq<u8>, Tree)>, fields: Seq<Field>) -> Seq<Field>
    decreases fields.len(),
{
    if fields.len() == 0 {
        Seq::empty()
    } else if occurrence(entries, fields[0].key()) is Absent {
        seq![fields[0]] + absent_fields(entries, fields.skip(1))
    } else {
        absent_fields(entries, fields.skip(1))
    }
}

/// Of the given fields of a record, those that are absent from its object
/// and so take their default. A node that is no object has none.
pub open spec fn defaulted_spec(t: Tree, fields: Seq<Field>) -> Seq<Field> {
    match members_of(t) {
        None => Seq::empty(),
        Some(entries) => absent_fields(entries, fields),
    }
}

/// Reports which of the given fields of a record take their default because
/// the save does not hold them.
pub fn defaulted(node: &Node, fields: &[Field]) -> (r: Vec<Field>)
    ensures
        r@ == defaulted_spec(node@, fields@),
{
    let mut out: Vec<Field> = Vec::new();
    let empty: Vec<(Vec<u8>, Node)> = Vec::new();
    match node_members(node, &empty) {
        None => {},
        Some(entries) => {
            let ghost views = member_views(entries@);
            let mut i: usize = 0;
            assert(fields@.skip(0) == fields@);
            assert(out@ + absent_fields(views, fields@) == absent_fields(views, fields@));
            while i < fields.len()
                invariant
                    i <= fields.len(),
                    views == member_views(entries@),
                    absent_fields(views, fields@) == out@ + absent_fields(
                        views,
                        fields@.skip(i as int),
                    ),
                decreases fields.len() - i,
            {
                let ghost before = out@;
                let ghost rest = fields@.skip(i as int);
                assert(rest[0] == fields@[i as int]);
                assert(rest.skip(1) == fields@.skip(i + 1));
                if let Found::Absent = find_field(entries, fields[i]) {
                    out.push(fields[i]);
                    assert(before + (seq![rest[0]] + absent_fields(views, rest.skip(1))) == (
                    before + seq![rest[0]]) + absent_fields(views, rest.skip(1)));
                }
                i += 1;
            }
            assert(fields@.skip(fields.len() as int).len() == 0);
            assert(out@ + Seq::<Field>::empty() == out@);
        },
    }
    out
}

/// The fields of a country that have a default other than "not present".
pub open spec fn country_fields() -> Seq<Field> {
    seq![Field::Stability, Field::WarSupport, Field::Variables]
}

/// The fields of a save that have a default.
pub open spec fn save_fields() -> Seq<Field> {
    seq![Field::Countries, Field::FiredEventNames]
}

/// Reports which fields of a country take their default because the save
/// does not hold them: of stability, war support and variables, in this
/// order, those whose key does not stand in the country's object. A
/// stability or a war support of one half that is listed here was never
/// measured.
pub fn country_defaults(node: &Node) -> (r: Vec<Field>)
    ensures
        r@ == defaulted_spec(node@, country_fields()),
{
    let fields: [Field; 3] = [Field::Stability, Field::WarSupport, Field::Variables];
    assert(fields@ =~= country_fields());
    defaulted(node, fields.as_slice())
}

/// Reports which fields of a save take their default because the save does
/// not hold them: of the countries and the names of the fired events, in
/// this order, those whose key does not stand in the root object.
pub fn save_defaults(root: &Node) -> (r: Vec<Field>)
    ensures
        r@ == defaulted_spec(root@, save_fields()),
{
    let fields: [Field; 2] = [Field::Countries, Field::FiredEventNames];
    assert(fields@ =~= save_fields());
    defaulted(root, fields.as_slice())
}

} // verus!
