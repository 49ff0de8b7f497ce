//! The immutable input model: the already-parsed save snapshot that every
//! reconstruction in this crate reads. The upstream save-parsing collaborator
//! produces these plain records (and the localized display names inside
//! them); this crate only ever reads them.
//!
//! Magnitudes that the save stores as decimal fractions (war participation
//! weights, battle alliance strengths) appear here as fixed-point integers,
//! scaled by the upstream converter; this crate never divides them back into
//! fractions except through integer arithmetic with a stated rounding.

use crate::dates::Date;
use crate::tags::Tag;
use vstd::prelude::*;

verus! {

/// Combat stats of a military leader, keyed by the leader's name.
#[derive(Clone, Debug)]
pub struct LeaderRecord {
    pub name: String,
    pub fire: u16,
    pub shock: u16,
    pub maneuver: u16,
    pub siege: u16,
}

/// A ruler (monarch, heir or queen), who may double as a military leader.
#[derive(Clone, Debug)]
pub struct RulerRecord {
    pub leader: Option<LeaderRecord>,
}

/// One dated entry of a country's history log.
#[derive(Clone, Debug)]
pub enum CountryEventKind {
    /// The identity adopted a new tag on this date.
    TagSwitch(Tag),
    /// The identity was annexed and stopped holding any tag.
    Annexed,
    /// A military leader was appointed.
    Leader(LeaderRecord),
    Monarch(RulerRecord),
    Heir(RulerRecord),
    Queen(RulerRecord),
}

#[derive(Clone, Debug)]
pub struct CountryEvent {
    pub date: Date,
    pub kind: CountryEventKind,
}

/// One annual sample of a per-country statistic.
#[derive(Clone, Copy, PartialEq, Eq, Structural, Debug)]
pub struct StatisticPoint {
    pub year: u16,
    pub value: i32,
}

/// The annual statistic series the save keeps per country. Series are not
/// guaranteed contiguous across years.
#[derive(Clone, Debug)]
pub struct CountryLedger {
    pub income: Vec<StatisticPoint>,
    pub inflation: Vec<StatisticPoint>,
    pub score: Vec<StatisticPoint>,
    pub nation_size: Vec<StatisticPoint>,
}

/// One stored identity: the persistent entity a save keeps under a fixed
/// stored tag, with its chronological history log.
#[derive(Clone, Debug)]
pub struct CountryRecord {
    /// The tag this identity is stored under; it never changes, and it is the
    /// tag the identity held when its record began.
    pub stored_tag: Tag,
    pub human: bool,
    pub is_great_power: bool,
    /// Number of owned cities; positive means the country is alive.
    pub num_of_cities: u32,
    /// Chronological history log (tag switches, annexation, leader and ruler
    /// changes). Entries may arrive out of date order across merged sources.
    pub history: Vec<CountryEvent>,
    /// Leaders of hired mercenary companies.
    pub mercenary_leaders: Vec<LeaderRecord>,
    /// Accumulated war losses, sentinel-encoded (see [`crate::losses`]).
    pub raw_losses: Vec<i32>,
    pub ledger: CountryLedger,
}

/// One side of a battle as the save records it.
#[derive(Clone, Debug)]
pub struct BattleSideRecord {
    pub infantry: u32,
    pub cavalry: u32,
    pub artillery: u32,
    pub heavy_ship: u32,
    pub light_ship: u32,
    pub galley: u32,
    pub transport: u32,
    pub losses: i32,
    pub country: Tag,
    pub commander: Option<String>,
}

/// A battle entry of a war's event log.
#[derive(Clone, Debug)]
pub struct BattleRecord {
    pub name: String,
    pub location: u16,
    pub attacker_won: bool,
    pub attacker: BattleSideRecord,
    pub defender: BattleSideRecord,
    /// Alliance strengths of the winning and losing side, fixed-point.
    pub winner_alliance: u32,
    pub loser_alliance: u32,
}

/// One entry of a war's event log.
#[derive(Clone, Debug)]
pub enum WarEventKind {
    AddAttacker(Tag),
    AddDefender(Tag),
    RemoveAttacker(Tag),
    RemoveDefender(Tag),
    Battle(BattleRecord),
}

#[derive(Clone, Debug)]
pub struct WarEvent {
    pub date: Date,
    pub kind: WarEventKind,
}

/// A war participant as stored: the tag it fought under, its participation
/// weight (fixed-point) and its sentinel-encoded losses vector.
#[derive(Clone, Debug)]
pub struct WarParticipantRecord {
    pub tag: Tag,
    pub participation: u32,
    pub raw_losses: Vec<i32>,
}

/// A war record: name, the original two belligerents, the event log in log
/// order (not guaranteed date-sorted) and the participant list.
#[derive(Clone, Debug)]
pub struct WarRecord {
    pub name: String,
    pub original_attacker: Tag,
    pub original_defender: Tag,
    pub events: Vec<WarEvent>,
    pub participants: Vec<WarParticipantRecord>,
}

/// One dated building toggle of a province's event log. Only toggles whose
/// building identifier is recognized as a real building (the caller passes
/// that set) count for building history.
#[derive(Clone, Debug)]
pub struct BuildingEvent {
    pub date: Date,
    pub building: String,
    /// `true` for construction, `false` for demolition.
    pub construction: bool,
}

#[derive(Clone, Debug)]
pub struct ProvinceRecord {
    pub building_events: Vec<BuildingEvent>,
}

/// A player entry: the player's name and the tag they control.
#[derive(Clone, Debug)]
pub struct PlayerRecord {
    pub name: String,
    pub tag: Tag,
}

/// One entry of the localization table the localization collaborator
/// supplies: the display name for a tag. Tags absent from the table display
/// as the empty string.
#[derive(Clone, Debug)]
pub struct TagName {
    pub tag: Tag,
    pub name: String,
}

/// The parsed save snapshot.
#[derive(Clone, Debug)]
pub struct SaveModel {
    /// Campaign start date.
    pub start_date: Date,
    /// The date the save was written.
    pub save_date: Date,
    pub players: Vec<PlayerRecord>,
    /// Localized display names for tags.
    pub tag_names: Vec<TagName>,
    pub countries: Vec<CountryRecord>,
    pub provinces: Vec<ProvinceRecord>,
    pub active_wars: Vec<WarRecord>,
    pub previous_wars: Vec<WarRecord>,
}

impl CountryRecord {
    pub open spec fn wf(self) -> bool {
        forall|i: int| 0 <= i < self.history@.len() ==> (#[trigger] self.history@[i]).date.wf()
    }
}

impl WarRecord {
    pub open spec fn wf(self) -> bool {
        &&& forall|i: int| 0 <= i < self.events@.len() ==> (#[trigger] self.events@[i]).date.wf()
        &&& self.participants@.len() < 0x1_0000_0000
    }
}

impl ProvinceRecord {
    /// Building event dates are real days whose years lie inside the
    /// campaign's year range.
    pub open spec fn wf(self, start_year: int, end_year: int) -> bool {
        forall|i: int| 0 <= i < self.building_events@.len() ==> {
            &&& (#[trigger] self.building_events@[i]).date.wf()
            &&& start_year <= self.building_events@[i].date.year <= end_year
        }
    }
}

/// Total number of building events across all provinces.
pub open spec fn total_building_events(provinces: Seq<ProvinceRecord>) -> int
    decreases provinces.len(),
{
    if provinces.len() == 0 {
        0
    } else {
        total_building_events(provinces.drop_last()) + provinces.last().building_events@.len()
    }
}

impl SaveModel {
    /// Structural validity of a parsed save: every stored date names a real
    /// day, the campaign starts no later than the save date, dated province
    /// events fall inside the campaign's year range, and the event counts
    /// stay below the machine limits the reconstructions sum within.
    pub open spec fn wf(self) -> bool {
        &&& self.start_date.wf()
        &&& self.save_date.wf()
        &&& self.start_date.index_spec() <= self.save_date.index_spec()
        &&& forall|i: int| 0 <= i < self.countries@.len() ==> (#[trigger] self.countries@[i]).wf()
        &&& forall|i: int, j: int|
            0 <= i < j < self.countries@.len() ==> (#[trigger] self.countries@[i]).stored_tag != (
            #[trigger] self.countries@[j]).stored_tag
        &&& forall|i: int| 0 <= i < self.provinces@.len() ==> (#[trigger] self.provinces@[i]).wf(
            self.start_date.year as int,
            self.save_date.year as int,
        )
        &&& forall|i: int| 0 <= i < self.active_wars@.len() ==> (#[trigger] self.active_wars@[i]).wf()
        &&& forall|i: int| 0 <= i < self.previous_wars@.len() ==> (#[trigger] self.previous_wars@[i]).wf()
        &&& total_building_events(self.provinces@) <= 0x7fff_ffff
    }
}

} // verus!
