//! The ways in which decoding a save can fail.

use vstd::prelude::*;
use vstd::string::StringSliceAdditionalSpecFns;

verus! {

/// A field of the save schema, named in a [`DecodeError::SchemaMismatch`].
#[derive(Clone, Copy, Debug, PartialEq, Eq, Structural)]
pub enum Field {
    Root,
    Player,
    Date,
    Countries,
    FiredEventNames,
    Stability,
    WarSupport,
    Variables,
    Politics,
    Focus,
    Progress,
    Current,
    Paused,
    Completed,
    RulingParty,
    PoliticalPower,
    Parties,
    Ideas,
    LastElection,
    ElectionsAllowed,
    Democratic,
    Communism,
    Fascism,
    Neutrality,
    Popularity,
    CountryLeader,
    Ideology,
    Character,
    Id,
    Kind,
    Name,
}

/// What a field's value is expected to be, or what was found in its place.
#[derive(Clone, Copy, Debug, PartialEq, Eq, Structural)]
pub enum Shape {
    /// A decimal number.
    Number,
    /// A decimal number between zero and one.
    Fraction,
    /// A whole number that fits in 32 bits.
    Integer,
    /// `yes` or `no`.
    Boolean,
    /// A quoted string.
    Text,
    /// A bare word that is neither a number nor a date.
    Identifier,
    /// A date, `Y.M.D` or `Y.M.D.H`.
    Date,
    /// A country tag of three characters.
    Tag,
    /// A lone `=`.
    Punctuation,
    /// A braced group whose members carry keys.
    Object,
    /// A braced group of bare values.
    Array,
    /// The key stood more than once where one value is expected.
    Repeated,
    /// The key did not stand at all where a value is required.
    Missing,
}

impl Field {
    /// The key under which the field stands in a save.
    pub open spec fn key(self) -> Seq<u8> {
        match self {
            Field::Root => "".spec_bytes(),
            Field::Player => "player".spec_bytes(),
            Field::Date => "date".spec_bytes(),
            Field::Countries => "countries".spec_bytes(),
            Field::FiredEventNames => "fired_event_names".spec_bytes(),
            Field::Stability => "stability".spec_bytes(),
            Field::WarSupport => "war_support".spec_bytes(),
            Field::Variables => "variables".spec_bytes(),
            Field::Politics => "politics".spec_bytes(),
            Field::Focus => "focus".spec_bytes(),
            Field::Progress => "progress".spec_bytes(),
            Field::Current => "current".spec_bytes(),
            Field::Paused => "paused".spec_bytes(),
            Field::Completed => "completed".spec_bytes(),
            Field::RulingParty => "ruling_party".spec_bytes(),
            Field::PoliticalPower => "political_power".spec_bytes(),
            Field::Parties => "parties".spec_bytes(),
            Field::Ideas => "ideas".spec_bytes(),
            Field::LastElection => "last_election".spec_bytes(),
            Field::ElectionsAllowed => "elections_allowed".spec_bytes(),
            Field::Democratic => "democratic".spec_bytes(),
            Field::Communism => "communism".spec_bytes(),
            Field::Fascism => "fascism".spec_bytes(),
            Field::Neutrality => "neutrality".spec_bytes(),
            Field::Popularity => "popularity".spec_bytes(),
            Field::CountryLeader => "country_leader".spec_bytes(),
            Field::Ideology => "ideology".spec_bytes(),
            Field::Character => "character".spec_bytes(),
            Field::Id => "id".spec_bytes(),
            Field::Kind => "type".spec_bytes(),
            Field::Name => "name".spec_bytes(),
        }
    }

    /// The key under which the field stands in a save.
    pub fn name(&self) -> (r: &'static str)
        ensures
            r.spec_bytes() == self.key(),
    {
        match self {
            Field::Root => "",
            Field::Player => "player",
            Field::Date => "date",
            Field::Countries => "countries",
            Field::FiredEventNames => "fired_event_names",
            Field::Stability => "stability",
            Field::WarSupport => "war_support",
            Field::Variables => "variables",
            Field::Politics => "politics",
            Field::Focus => "focus",
            Field::Progress => "progress",
            Field::Current => "current",
            Field::Paused => "paused",
            Field::Completed => "completed",
            Field::RulingParty => "ruling_party",
            Field::PoliticalPower => "political_power",
            Field::Parties => "parties",
            Field::Ideas => "ideas",
            Field::LastElection => "last_election",
            Field::ElectionsAllowed => "elections_allowed",
            Field::Democratic => "democratic",
            Field::Communism => "communism",
            Field::Fascism => "fascism",
            Field::Neutrality => "neutrality",
            Field::Popularity => "popularity",
            Field::CountryLeader => "country_leader",
            Field::Ideology => "ideology",
            Field::Character => "character",
            Field::Id => "id",
            Field::Kind => "type",
            Field::Name => "name",
        }
    }
}

/// Why a save could not be decoded. Each is fatal for the file at hand.
#[derive(Clone, Copy, Debug, PartialEq, Eq, Structural)]
pub enum DecodeError {
    /// The token starting at `offset` is not valid UTF-8.
    MalformedEncoding { offset: usize },
    /// The quoted string opened at `offset` is never closed.
    UnterminatedString { offset: usize },
    /// The brace at `offset` has no partner.
    UnbalancedBraces { offset: usize },
    /// The brace at `offset` opens a group nested deeper than the limit.
    DepthExceeded { offset: usize },
    /// A field holds something that does not convert to its declared shape.
    SchemaMismatch { field: Field, expected: Shape, actual: Shape },
}

impl DecodeError {
    /// The byte offset at which decoding failed, for the errors that have
    /// one.
    pub open spec fn offset_spec(self) -> Option<usize> {
        match self {
            DecodeError::MalformedEncoding { offset } => Some(offset),
            DecodeError::UnterminatedString { offset } => Some(offset),
            DecodeError::UnbalancedBraces { offset } => Some(offset),
            DecodeError::DepthExceeded { offset } => Some(offset),
            DecodeError::SchemaMismatch { .. } => None,
        }
    }

    /// The byte offset at which decoding failed, for the errors that have
    /// one.
    pub fn offset(&self) -> (r: Option<usize>)
        ensures
            r == self.offset_spec(),
    {
        match self {
            DecodeError::MalformedEncoding { offset } => Some(*offset),
            DecodeError::UnterminatedString { offset } => Some(*offset),
            DecodeError::UnbalancedBraces { offset } => Some(*offset),
            DecodeError::DepthExceeded { offset } => Some(*offset),
            DecodeError::SchemaMismatch { .. } => None,
        }
    }

    /// The name of the kind of error.
    pub open spec fn kind_spec(self) -> Seq<char> {
        match self {
            DecodeError::MalformedEncoding { .. } => "MalformedEncoding"@,
            DecodeError::UnterminatedString { .. } => "UnterminatedString"@,
            DecodeError::UnbalancedBraces { .. } => "UnbalancedBraces"@,
            DecodeError::DepthExceeded { .. } => "DepthExceeded"@,
            DecodeError::SchemaMismatch { .. } => "SchemaMismatch"@,
        }
    }

    /// The name of the kind of error.
    pub fn kind(&self) -> (r: &'static str)
        ensures
            r@ == self.kind_spec(),
    {
        match self {
            DecodeError::MalformedEncoding { .. } => "MalformedEncoding",
            DecodeError::UnterminatedString { .. } => "UnterminatedString",
            DecodeError::UnbalancedBraces { .. } => "UnbalancedBraces",
            DecodeError::DepthExceeded { .. } => "DepthExceeded",
            DecodeError::SchemaMismatch { .. } => "SchemaMismatch",
        }
    }
}

} // verus!
