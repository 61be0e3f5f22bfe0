//! Spot classification against a user's log matrix: New DXCC / New Band /
//! New Mode / New Slot / Worked for one spot and one user, the
//! worked-but-unconfirmed half of that ladder, and the award axes (grid,
//! state, island).

use crate::awards::{iota_spec, state_code, us_states, was_entity};
use crate::bands::{band_rows, first_row, vucc_bands_spec};
use crate::beacons::display_name_spec;
use crate::cty::entity_of;
use crate::dxcc::{exact_adif, normalize_spec, resolve_spec, DxccResolver};
use crate::grid::grid4_spec;
use crate::matrix::{slot_key, AwardView, DxccView, LogMatrix, MatrixView};
use crate::modes::canonical_spec;
use crate::assoc::get;
use crate::text::{chars_of, extend_chars, string_of, trim, unicode_upper, views};
use vstd::prelude::*;

verus! {

/// How interesting a spot is to one user. The `Unconf*` levels mean
/// worked and still not confirmed; the `New*` levels mean never worked.
#[derive(Debug, Clone, Copy, PartialEq, Eq, Hash, Structural)]
pub enum AlertLevel {
    NoAlert,
    Worked,
    NewMode,
    NewBand,
    NewSlot,
    NewDxcc,
    UnconfMode,
    UnconfBand,
    UnconfSlot,
    UnconfDxcc,
    NewGrid,
    NewState,
    NewIota,
    UnconfGrid,
    UnconfState,
    UnconfIota,
}

/// Every level a spot can be flagged as, rarest first. This order is also
/// the tiebreak when a spot qualifies for several levels at once.
pub open spec fn flaggable_spec() -> Seq<AlertLevel> {
    seq![
        AlertLevel::NewDxcc,
        AlertLevel::NewIota,
        AlertLevel::NewState,
        AlertLevel::NewGrid,
        AlertLevel::NewBand,
        AlertLevel::NewMode,
        AlertLevel::NewSlot,
        AlertLevel::UnconfDxcc,
        AlertLevel::UnconfIota,
        AlertLevel::UnconfState,
        AlertLevel::UnconfGrid,
        AlertLevel::UnconfBand,
        AlertLevel::UnconfMode,
        AlertLevel::UnconfSlot,
    ]
}

/// The flaggable levels, rarest first.
pub fn flaggable() -> (v: Vec<AlertLevel>)
    ensures
        v@ == flaggable_spec(),
{
    let v = vec![
        AlertLevel::NewDxcc,
        AlertLevel::NewIota,
        AlertLevel::NewState,
        AlertLevel::NewGrid,
        AlertLevel::NewBand,
        AlertLevel::NewMode,
        AlertLevel::NewSlot,
        AlertLevel::UnconfDxcc,
        AlertLevel::UnconfIota,
        AlertLevel::UnconfState,
        AlertLevel::UnconfGrid,
        AlertLevel::UnconfBand,
        AlertLevel::UnconfMode,
        AlertLevel::UnconfSlot,
    ];
    assert(v@ =~= flaggable_spec());
    v
}

/// Position in the flaggable order; `Worked` and `None` rank below every
/// flaggable level.
pub open spec fn rank_spec(l: AlertLevel) -> nat {
    match l {
        AlertLevel::NewDxcc => 0,
        AlertLevel::NewIota => 1,
        AlertLevel::NewState => 2,
        AlertLevel::NewGrid => 3,
        AlertLevel::NewBand => 4,
        AlertLevel::NewMode => 5,
        AlertLevel::NewSlot => 6,
        AlertLevel::UnconfDxcc => 7,
        AlertLevel::UnconfIota => 8,
        AlertLevel::UnconfState => 9,
        AlertLevel::UnconfGrid => 10,
        AlertLevel::UnconfBand => 11,
        AlertLevel::UnconfMode => 12,
        AlertLevel::UnconfSlot => 13,
        AlertLevel::NoAlert | AlertLevel::Worked => usize::MAX as nat,
    }
}

pub open spec fn unconfirmed_spec(l: AlertLevel) -> bool {
    match l {
        AlertLevel::UnconfDxcc | AlertLevel::UnconfBand | AlertLevel::UnconfMode
        | AlertLevel::UnconfSlot | AlertLevel::UnconfGrid | AlertLevel::UnconfState
        | AlertLevel::UnconfIota => true,
        _ => false,
    }
}

pub open spec fn award_spec(l: AlertLevel) -> Option<Seq<char>> {
    match l {
        AlertLevel::NewGrid | AlertLevel::UnconfGrid => Some("vucc"@),
        AlertLevel::NewState | AlertLevel::UnconfState => Some("was"@),
        AlertLevel::NewIota | AlertLevel::UnconfIota => Some("iota"@),
        _ => None,
    }
}

pub open spec fn key_spec(l: AlertLevel) -> Seq<char> {
    match l {
        AlertLevel::NoAlert => "none"@,
        AlertLevel::Worked => "worked"@,
        AlertLevel::NewMode => "newMode"@,
        AlertLevel::NewBand => "newBand"@,
        AlertLevel::NewSlot => "newSlot"@,
        AlertLevel::NewDxcc => "newDXCC"@,
        AlertLevel::UnconfMode => "unconfMode"@,
        AlertLevel::UnconfBand => "unconfBand"@,
        AlertLevel::UnconfSlot => "unconfSlot"@,
        AlertLevel::UnconfDxcc => "unconfDXCC"@,
        AlertLevel::NewGrid => "newGrid"@,
        AlertLevel::NewState => "newState"@,
        AlertLevel::NewIota => "newIOTA"@,
        AlertLevel::UnconfGrid => "unconfGrid"@,
        AlertLevel::UnconfState => "unconfState"@,
        AlertLevel::UnconfIota => "unconfIOTA"@,
    }
}

pub open spec fn label_spec(l: AlertLevel) -> Seq<char> {
    match l {
        AlertLevel::NoAlert => ""@,
        AlertLevel::Worked => ""@,
        AlertLevel::NewMode => "New Mode"@,
        AlertLevel::NewBand => "New Band"@,
        AlertLevel::NewSlot => "New Slot"@,
        AlertLevel::NewDxcc => "NEW DXCC"@,
        AlertLevel::UnconfMode => "? Mode"@,
        AlertLevel::UnconfBand => "? Band"@,
        AlertLevel::UnconfSlot => "? Slot"@,
        AlertLevel::UnconfDxcc => "? DXCC"@,
        AlertLevel::NewGrid => "New Grid"@,
        AlertLevel::NewState => "New State"@,
        AlertLevel::NewIota => "New IOTA"@,
        AlertLevel::UnconfGrid => "? Grid"@,
        AlertLevel::UnconfState => "? State"@,
        AlertLevel::UnconfIota => "? IOTA"@,
    }
}

impl AlertLevel {
    /// Flaggable rank, for picking among simultaneous candidates.
    pub fn rank(self) -> (r: usize)
        ensures
            r == rank_spec(self),
    {
        match self {
            AlertLevel::NewDxcc => 0,
            AlertLevel::NewIota => 1,
            AlertLevel::NewState => 2,
            AlertLevel::NewGrid => 3,
            AlertLevel::NewBand => 4,
            AlertLevel::NewMode => 5,
            AlertLevel::NewSlot => 6,
            AlertLevel::UnconfDxcc => 7,
            AlertLevel::UnconfIota => 8,
            AlertLevel::UnconfState => 9,
            AlertLevel::UnconfGrid => 10,
            AlertLevel::UnconfBand => 11,
            AlertLevel::UnconfMode => 12,
            AlertLevel::UnconfSlot => 13,
            AlertLevel::NoAlert | AlertLevel::Worked => usize::MAX,
        }
    }

    /// The confirmation-hunting half of the ladder — the `?` levels.
    pub fn is_unconfirmed(self) -> (r: bool)
        ensures
            r == unconfirmed_spec(self),
    {
        match self {
            AlertLevel::UnconfDxcc | AlertLevel::UnconfBand | AlertLevel::UnconfMode
            | AlertLevel::UnconfSlot | AlertLevel::UnconfGrid | AlertLevel::UnconfState
            | AlertLevel::UnconfIota => true,
            _ => false,
        }
    }

    /// Which chased award a level belongs to — `None` for the DXCC eight.
    pub fn award(self) -> (r: Option<&'static str>)
        ensures
            match r {
                Some(s) => award_spec(self) == Some(s@),
                None => award_spec(self) is None,
            },
    {
        match self {
            AlertLevel::NewGrid | AlertLevel::UnconfGrid => Some("vucc"),
            AlertLevel::NewState | AlertLevel::UnconfState => Some("was"),
            AlertLevel::NewIota | AlertLevel::UnconfIota => Some("iota"),
            _ => None,
        }
    }

    /// Stable machine key.
    pub fn key(self) -> (r: &'static str)
        ensures
            r@ == key_spec(self),
    {
        match self {
            AlertLevel::NoAlert => "none",
            AlertLevel::Worked => "worked",
            AlertLevel::NewMode => "newMode",
            AlertLevel::NewBand => "newBand",
            AlertLevel::NewSlot => "newSlot",
            AlertLevel::NewDxcc => "newDXCC",
            AlertLevel::UnconfMode => "unconfMode",
            AlertLevel::UnconfBand => "unconfBand",
            AlertLevel::UnconfSlot => "unconfSlot",
            AlertLevel::UnconfDxcc => "unconfDXCC",
            AlertLevel::NewGrid => "newGrid",
            AlertLevel::NewState => "newState",
            AlertLevel::NewIota => "newIOTA",
            AlertLevel::UnconfGrid => "unconfGrid",
            AlertLevel::UnconfState => "unconfState",
            AlertLevel::UnconfIota => "unconfIOTA",
        }
    }

    /// Short human label; `?` is the logger convention for
    /// worked-but-unconfirmed.
    pub fn label(self) -> (r: &'static str)
        ensures
            r@ == label_spec(self),
    {
        match self {
            AlertLevel::NoAlert => "",
            AlertLevel::Worked => "",
            AlertLevel::NewMode => "New Mode",
            AlertLevel::NewBand => "New Band",
            AlertLevel::NewSlot => "New Slot",
            AlertLevel::NewDxcc => "NEW DXCC",
            AlertLevel::UnconfMode => "? Mode",
            AlertLevel::UnconfBand => "? Band",
            AlertLevel::UnconfSlot => "? Slot",
            AlertLevel::UnconfDxcc => "? DXCC",
            AlertLevel::NewGrid => "New Grid",
            AlertLevel::NewState => "New State",
            AlertLevel::NewIota => "New IOTA",
            AlertLevel::UnconfGrid => "? Grid",
            AlertLevel::UnconfState => "? State",
            AlertLevel::UnconfIota => "? IOTA",
        }
    }
}

/// The per-user alert toggles. A level switched off here is never flagged.
#[derive(Debug, Clone, Copy, PartialEq, Eq)]
pub struct AlertConfig {
    pub alert_new_dxcc: bool,
    pub alert_new_slot: bool,
    pub alert_new_band: bool,
    pub alert_new_mode: bool,
    pub alert_unconf_dxcc: bool,
    pub alert_unconf_slot: bool,
    pub alert_unconf_band: bool,
    pub alert_unconf_mode: bool,
    pub alert_new_grid: bool,
    pub alert_unconf_grid: bool,
    pub alert_new_state: bool,
    pub alert_unconf_state: bool,
    pub alert_new_iota: bool,
    pub alert_unconf_iota: bool,
}

impl Default for AlertConfig {
    /// The four `New*` DXCC levels on; the unconfirmed half and the award
    /// axes off.
    fn default() -> (c: AlertConfig)
        ensures
            c.alert_new_dxcc && c.alert_new_slot && c.alert_new_band && c.alert_new_mode,
            !c.alert_unconf_dxcc && !c.alert_unconf_slot && !c.alert_unconf_band
                && !c.alert_unconf_mode,
            !c.alert_new_grid && !c.alert_unconf_grid && !c.alert_new_state
                && !c.alert_unconf_state && !c.alert_new_iota && !c.alert_unconf_iota,
    {
        AlertConfig {
            alert_new_dxcc: true,
            alert_new_slot: true,
            alert_new_band: true,
            alert_new_mode: true,
            alert_unconf_dxcc: false,
            alert_unconf_slot: false,
            alert_unconf_band: false,
            alert_unconf_mode: false,
            alert_new_grid: false,
            alert_unconf_grid: false,
            alert_new_state: false,
            alert_unconf_state: false,
            alert_new_iota: false,
            alert_unconf_iota: false,
        }
    }
}

/// A level the operator switched off collapses to `Worked` (it does not
/// fall through to the next-best level).
pub open spec fn filter_spec(c: AlertConfig, l: AlertLevel) -> AlertLevel {
    let keep = match l {
        AlertLevel::NewDxcc => c.alert_new_dxcc,
        AlertLevel::NewSlot => c.alert_new_slot,
        AlertLevel::NewBand => c.alert_new_band,
        AlertLevel::NewMode => c.alert_new_mode,
        AlertLevel::UnconfDxcc => c.alert_unconf_dxcc,
        AlertLevel::UnconfSlot => c.alert_unconf_slot,
        AlertLevel::UnconfBand => c.alert_unconf_band,
        AlertLevel::UnconfMode => c.alert_unconf_mode,
        AlertLevel::NewGrid => c.alert_new_grid,
        AlertLevel::UnconfGrid => c.alert_unconf_grid,
        AlertLevel::NewState => c.alert_new_state,
        AlertLevel::UnconfState => c.alert_unconf_state,
        AlertLevel::NewIota => c.alert_new_iota,
        AlertLevel::UnconfIota => c.alert_unconf_iota,
        AlertLevel::Worked | AlertLevel::NoAlert => true,
    };
    if keep {
        l
    } else {
        AlertLevel::Worked
    }
}

/// The spot-side award facts: the DX station's locator, an IOTA
/// reference, and its US state. All optional.
#[derive(Debug, Clone, Copy, Default)]
pub struct AwardRefs<'a> {
    /// The DX station's locator, 4 or 6 characters.
    pub grid: Option<&'a str>,
    /// IOTA reference as extracted (normalised again internally).
    pub iota: Option<&'a str>,
    /// Two-letter state from the FCC table.
    pub state: Option<&'a str>,
}

impl AwardRefs<'static> {
    /// No award facts: classifies exactly as DXCC alone.
    pub fn none() -> (r: AwardRefs<'static>)
        ensures
            r.grid is None && r.iota is None && r.state is None,
    {
        AwardRefs { grid: None, iota: None, state: None }
    }
}

/// One spot's verdict for one user.
#[derive(Debug, Clone, PartialEq)]
pub struct Classification {
    pub level: AlertLevel,
    pub dxcc_id: Option<i32>,
    pub dxcc_name: Option<String>,
    pub band: Option<&'static str>,
    pub is_beacon: bool,
    /// The award key that fired, when `level` is an award level.
    pub award_ref: Option<String>,
}

/// A classification as values.
pub struct ClassView {
    pub level: AlertLevel,
    pub dxcc_id: Option<i32>,
    pub dxcc_name: Option<Seq<char>>,
    pub band: Option<Seq<char>>,
    pub is_beacon: bool,
    pub award_ref: Option<Seq<char>>,
}

pub open spec fn opt_text(o: Option<String>) -> Option<Seq<char>> {
    match o {
        Some(s) => Some(s@),
        None => None,
    }
}

pub open spec fn opt_str(o: Option<&str>) -> Option<Seq<char>> {
    match o {
        Some(s) => Some(s@),
        None => None,
    }
}

pub open spec fn class_view(c: Classification) -> ClassView {
    ClassView {
        level: c.level,
        dxcc_id: c.dxcc_id,
        dxcc_name: opt_text(c.dxcc_name),
        band: opt_str(c.band),
        is_beacon: c.is_beacon,
        award_ref: opt_text(c.award_ref),
    }
}

// ---------------------------------------------------------------------------
// The ladder
// ---------------------------------------------------------------------------

/// The DXCC ladder for one entity, rarest gap first: never-worked band,
/// mode, slot; then (only once the slot is in the log) nothing confirmed
/// at all, unconfirmed band, mode, slot. With no mode only the band half
/// runs.
pub open spec fn raw_level_spec(
    dv: Seq<(i32, DxccView)>,
    dxcc: i32,
    band: Seq<char>,
    mode: Option<Seq<char>>,
) -> AlertLevel {
    match get(dv, dxcc) {
        None => AlertLevel::NewDxcc,
        Some(s) => match mode {
            None => if !s.bands.contains(band) {
                AlertLevel::NewBand
            } else if s.confirmed_slots.len() == 0 {
                AlertLevel::UnconfDxcc
            } else if !s.confirmed_bands.contains(band) {
                AlertLevel::UnconfBand
            } else {
                AlertLevel::Worked
            },
            Some(m) => {
                let slot = slot_key(band, m);
                if !s.slots.contains(slot) {
                    if !s.bands.contains(band) {
                        AlertLevel::NewBand
                    } else if !s.modes.contains(m) {
                        AlertLevel::NewMode
                    } else {
                        AlertLevel::NewSlot
                    }
                } else if s.confirmed_slots.len() == 0 {
                    AlertLevel::UnconfDxcc
                } else if !s.confirmed_slots.contains(slot) {
                    if !s.confirmed_bands.contains(band) {
                        AlertLevel::UnconfBand
                    } else if !s.confirmed_modes.contains(m) {
                        AlertLevel::UnconfMode
                    } else {
                        AlertLevel::UnconfSlot
                    }
                } else {
                    AlertLevel::Worked
                }
            },
        },
    }
}

/// The award-spot facts as values.
pub struct RefsView {
    pub grid: Option<Seq<char>>,
    pub iota: Option<Seq<char>>,
    pub state: Option<Seq<char>>,
}

pub open spec fn refs_view(r: AwardRefs) -> RefsView {
    RefsView { grid: opt_str(r.grid), iota: opt_str(r.iota), state: opt_str(r.state) }
}

/// The grid candidate: a real square on a VUCC band, graded per band.
pub open spec fn grid_candidate(m: MatrixView, refs: RefsView, band: Seq<char>) -> Option<(AlertLevel, Seq<char>)> {
    if views(vucc_bands_spec()).contains(band) && (refs.grid matches Some(g) && grid4_spec(g) is Some) {
        let g4 = grid4_spec(refs.grid->0)->0;
        let raw = match get(m.grids, g4) {
            Some(s) => if s.confirmed_bands.contains(band) {
                AlertLevel::Worked
            } else if s.bands.contains(band) {
                AlertLevel::UnconfGrid
            } else {
                AlertLevel::NewGrid
            },
            None => AlertLevel::NewGrid,
        };
        Some((raw, g4))
    } else {
        None
    }
}

/// The state candidate: only with some state data in the log, for a US
/// entity, and a real state code; graded at the key level.
pub open spec fn state_candidate(m: MatrixView, refs: RefsView, dxcc_id: Option<i32>) -> Option<(AlertLevel, Seq<char>)> {
    if (refs.state matches Some(st) && m.states.len() > 0 && (dxcc_id matches Some(x) && was_entity(x))
        && views(us_states()).contains(state_code(st))) {
        let code = state_code(refs.state->0);
        let raw = match get(m.states, code) {
            Some(s) => if s.confirmed_bands.len() > 0 {
                AlertLevel::Worked
            } else {
                AlertLevel::UnconfState
            },
            None => AlertLevel::NewState,
        };
        Some((raw, code))
    } else {
        None
    }
}

/// The island candidate: only with some IOTA data in the log; key level.
pub open spec fn iota_candidate(m: MatrixView, refs: RefsView) -> Option<(AlertLevel, Seq<char>)> {
    if (refs.iota matches Some(t) && m.islands.len() > 0 && iota_spec(t) is Some) {
        let r = iota_spec(refs.iota->0)->0;
        let raw = match get(m.islands, r) {
            Some(s) => if s.confirmed_bands.len() > 0 {
                AlertLevel::Worked
            } else {
                AlertLevel::UnconfIota
            },
            None => AlertLevel::NewIota,
        };
        Some((raw, r))
    } else {
        None
    }
}

/// `best` after considering `cand`: a candidate counts once filtered and
/// still flaggable, and replaces `best` only when strictly rarer.
pub open spec fn consider(
    c: AlertConfig,
    best: Option<(AlertLevel, Seq<char>)>,
    cand: Option<(AlertLevel, Seq<char>)>,
) -> Option<(AlertLevel, Seq<char>)> {
    match cand {
        None => best,
        Some((raw, key)) => {
            let l = filter_spec(c, raw);
            if l == AlertLevel::Worked || l == AlertLevel::NoAlert {
                best
            } else {
                match best {
                    None => Some((l, key)),
                    Some((b, bk)) => if rank_spec(l) < rank_spec(b) {
                        Some((l, key))
                    } else {
                        best
                    },
                }
            }
        },
    }
}

/// The rarest enabled award gap this spot fills, and its key; grid, state,
/// island considered in that order.
pub open spec fn best_award_spec(
    m: MatrixView,
    c: AlertConfig,
    refs: RefsView,
    band: Seq<char>,
    dxcc_id: Option<i32>,
) -> Option<(AlertLevel, Seq<char>)> {
    consider(
        c,
        consider(c, consider(c, None, grid_candidate(m, refs, band)), state_candidate(m, refs, dxcc_id)),
        iota_candidate(m, refs),
    )
}

/// The unclassifiable verdict.
pub open spec fn none_view() -> ClassView {
    ClassView {
        level: AlertLevel::NoAlert,
        dxcc_id: None,
        dxcc_name: None,
        band: None,
        is_beacon: false,
        award_ref: None,
    }
}

/// The award class of a spot's mode, `None` when it is blank.
pub open spec fn spot_class(mode: Seq<char>) -> Option<Seq<char>> {
    if trim(mode).len() == 0 {
        None
    } else {
        Some(canonical_spec(mode)@)
    }
}

/// The verdict for a spot of `callsign` on `freq` hertz in `mode`.
pub open spec fn classify_spec(
    m: MatrixView,
    res: DxccResolver,
    c: AlertConfig,
    callsign: Seq<char>,
    freq: u64,
    mode: Seq<char>,
    refs: RefsView,
) -> ClassView {
    let band = match first_row(band_rows(), freq as int, true) {
        Some(b) => Some(b@),
        None => None,
    };
    if callsign.len() == 0 || res.ents().len() == 0 {
        none_view()
    } else if exact_adif(res.rules(), res.now(), normalize_spec(unicode_upper(callsign))) == Some(0i32)
        || display_name_spec(callsign) is Some {
        ClassView {
            level: AlertLevel::NoAlert,
            dxcc_id: None,
            dxcc_name: Some(
                match display_name_spec(callsign) {
                    Some(n) => n,
                    None => "Beacon"@,
                },
            ),
            band: band,
            is_beacon: true,
            award_ref: None,
        }
    } else {
        let dxcc_id = resolve_spec(res.ents(), res.rules(), res.now(), callsign);
        let dxcc_name = match dxcc_id {
            Some(id) => match entity_of(res.ents(), id) {
                Some(e) => Some(e.name@),
                None => None,
            },
            None => None,
        };
        let award = match band {
            Some(b) => best_award_spec(m, c, refs, b, dxcc_id),
            None => None,
        };
        match (dxcc_id, band) {
            (Some(d), Some(b)) => {
                let dl = filter_spec(c, raw_level_spec(m.dxcc, d, b, spot_class(mode)));
                let (level, award_ref) = match award {
                    Some((l, r)) => if rank_spec(l) < rank_spec(dl) {
                        (l, Some(r))
                    } else {
                        (dl, None)
                    },
                    None => (dl, None),
                };
                ClassView {
                    level,
                    dxcc_id: Some(d),
                    dxcc_name,
                    band: Some(b),
                    is_beacon: false,
                    award_ref,
                }
            },
            _ => ClassView {
                level: match award {
                    Some((l, _)) => l,
                    None => AlertLevel::NoAlert,
                },
                dxcc_id,
                dxcc_name,
                band,
                is_beacon: false,
                award_ref: match award {
                    Some((_, r)) => Some(r),
                    None => None,
                },
            },
        }
    }
}

/// Classifies spots for one user: their matrix, the shared resolver, and
/// their alert toggles.
pub struct AlertClassifier<'a> {
    pub matrix: &'a LogMatrix,
    pub resolver: &'a DxccResolver,
    pub config: &'a AlertConfig,
}

pub open spec fn pair_view(o: Option<(AlertLevel, String)>) -> Option<(AlertLevel, Seq<char>)> {
    match o {
        Some((l, s)) => Some((l, s@)),
        None => None,
    }
}

impl<'a> AlertClassifier<'a> {
    /// Classify a spot with no award facts.
    pub fn classify(&self, callsign: &str, frequency_hz: u64, mode: &str) -> (r: Classification)
        ensures
            class_view(r) == classify_spec(
                self.matrix.mv(),
                *self.resolver,
                *self.config,
                callsign@,
                frequency_hz,
                mode@,
                refs_view(AwardRefs { grid: None, iota: None, state: None }),
            ),
    {
        let refs = AwardRefs::none();
        self.classify_spot(callsign, frequency_hz, mode, &refs)
    }

    /// Classify a spot of `callsign` on `frequency_hz` in `mode`. A spot
    /// can qualify for several levels at once; the rarest enabled one wins,
    /// so switching a level off makes the same spot flag as its next-rarest
    /// truth rather than vanish. Beacons never alert.
    pub fn classify_spot(&self, callsign: &str, frequency_hz: u64, mode: &str, refs: &AwardRefs) -> (r: Classification)
        ensures
            class_view(r) == classify_spec(
                self.matrix.mv(),
                *self.resolver,
                *self.config,
                callsign@,
                frequency_hz,
                mode@,
                refs_view(*refs),
            ),
    {
        let band = crate::bands::band_from_hz(frequency_hz);
        if callsign.is_empty() || !self.resolver.is_loaded() {
            return Classification {
                level: AlertLevel::NoAlert,
                dxcc_id: None,
                dxcc_name: None,
                band: None,
                is_beacon: false,
                award_ref: None,
            };
        }
        let known = crate::beacons::display_name(callsign);
        if self.resolver.is_non_dx_operation(callsign) || known.is_some() {
            let name = match known {
                Some(n) => n,
                None => "Beacon".to_owned(),
            };
            return Classification {
                level: AlertLevel::NoAlert,
                dxcc_id: None,
                dxcc_name: Some(name),
                band,
                is_beacon: true,
                award_ref: None,
            };
        }
        let dxcc_id = self.resolver.resolve(callsign);
        let dxcc_name = match dxcc_id {
            Some(id) => match self.resolver.entity(id) {
                Some(e) => Some(e.name.clone()),
                None => None,
            },
            None => None,
        };
        let normalized_mode = crate::modes::canonical_opt(mode);
        let award = match band {
            Some(b) => self.best_award(refs, b, dxcc_id),
            None => None,
        };
        match (dxcc_id, band) {
            (Some(d), Some(b)) => {
                let dl = self.apply_filter(self.raw_level(d, b, normalized_mode));
                let (level, award_ref) = match award {
                    Some((l, r)) => if l.rank() < dl.rank() {
                        (l, Some(r))
                    } else {
                        (dl, None)
                    },
                    None => (dl, None),
                };
                Classification { level, dxcc_id: Some(d), dxcc_name, band: Some(b), is_beacon: false, award_ref }
            },
            _ => {
                let (level, award_ref) = match award {
                    Some((l, r)) => (l, Some(r)),
                    None => (AlertLevel::NoAlert, None),
                };
                Classification { level, dxcc_id, dxcc_name, band, is_beacon: false, award_ref }
            },
        }
    }

    /// The rarest enabled award gap this spot fills, with its key.
    fn best_award(&self, refs: &AwardRefs, band: &str, dxcc_id: Option<i32>) -> (r: Option<(AlertLevel, String)>)
        ensures
            pair_view(r) == best_award_spec(self.matrix.mv(), *self.config, refs_view(*refs), band@, dxcc_id),
    {
        let m = self.matrix;
        let mut grid_c: Option<(AlertLevel, String)> = None;
        if crate::bands::is_vucc_band(band) {
            if let Some(g) = refs.grid {
                if let Some(g4) = crate::grid::grid4(g) {
                    let raw = match m.grid(g4.as_str()) {
                        Some(s) => if s.confirmed_bands.contains(band) {
                            AlertLevel::Worked
                        } else if s.bands.contains(band) {
                            AlertLevel::UnconfGrid
                        } else {
                            AlertLevel::NewGrid
                        },
                        None => AlertLevel::NewGrid,
                    };
                    grid_c = Some((raw, g4));
                }
            }
        }
        assert(pair_view(grid_c) == grid_candidate(m.mv(), refs_view(*refs), band@));
        let mut state_c: Option<(AlertLevel, String)> = None;
        if let Some(st) = refs.state {
            let us = match dxcc_id {
                Some(x) => crate::awards::counts_for_was(x),
                None => false,
            };
            if m.by_state.len() > 0 && us {
                if let Some(code) = crate::awards::normalize_state(st) {
                    let raw = match m.state(code) {
                        Some(s) => if s.is_confirmed() {
                            AlertLevel::Worked
                        } else {
                            AlertLevel::UnconfState
                        },
                        None => AlertLevel::NewState,
                    };
                    state_c = Some((raw, code.to_owned()));
                }
            }
        }
        assert(pair_view(state_c) == state_candidate(m.mv(), refs_view(*refs), dxcc_id));
        let mut iota_c: Option<(AlertLevel, String)> = None;
        if let Some(t) = refs.iota {
            if m.by_iota.len() > 0 {
                if let Some(r) = crate::awards::normalize_iota(t) {
                    let raw = match m.island(r.as_str()) {
                        Some(s) => if s.is_confirmed() {
                            AlertLevel::Worked
                        } else {
                            AlertLevel::UnconfIota
                        },
                        None => AlertLevel::NewIota,
                    };
                    iota_c = Some((raw, r));
                }
            }
        }
        assert(pair_view(iota_c) == iota_candidate(m.mv(), refs_view(*refs)));
        let best = self.consider(None, grid_c);
        let best = self.consider(best, state_c);
        self.consider(best, iota_c)
    }

    fn consider(&self, best: Option<(AlertLevel, String)>, cand: Option<(AlertLevel, String)>) -> (r: Option<(AlertLevel, String)>)
        ensures
            pair_view(r) == consider(*self.config, pair_view(best), pair_view(cand)),
    {
        match cand {
            None => best,
            Some((raw, key)) => {
                let l = self.apply_filter(raw);
                if l.rank() == usize::MAX {
                    best
                } else {
                    match best {
                        None => Some((l, key)),
                        Some((b, bk)) => if l.rank() < b.rank() {
                            Some((l, key))
                        } else {
                            Some((b, bk))
                        },
                    }
                }
            },
        }
    }

    /// The DXCC ladder for one entity (see [`raw_level_spec`]).
    pub fn raw_level(&self, dxcc: i32, band: &str, mode: Option<&str>) -> (r: AlertLevel)
        ensures
            r == raw_level_spec(self.matrix.dxcc(), dxcc, band@, opt_str(mode)),
    {
        let status = match self.matrix.status(dxcc) {
            Some(s) => s,
            None => return AlertLevel::NewDxcc,
        };
        let mode = match mode {
            Some(m) => m,
            None => {
                if !status.bands.contains(band) {
                    return AlertLevel::NewBand;
                }
                if status.confirmed_slots.is_empty() {
                    return AlertLevel::UnconfDxcc;
                }
                if !status.confirmed_bands.contains(band) {
                    return AlertLevel::UnconfBand;
                }
                return AlertLevel::Worked;
            },
        };
        let mut sv = chars_of(band);
        sv.push('-');
        extend_chars(&mut sv, chars_of(mode).as_slice());
        let slot = string_of(sv.as_slice());
        assert(slot@ == slot_key(band@, mode@));
        if !status.slots.contains(slot.as_str()) {
            if !status.bands.contains(band) {
                return AlertLevel::NewBand;
            }
            if !status.modes.contains(mode) {
                return AlertLevel::NewMode;
            }
            return AlertLevel::NewSlot;
        }
        if status.confirmed_slots.is_empty() {
            return AlertLevel::UnconfDxcc;
        }
        if !status.confirmed_slots.contains(slot.as_str()) {
            if !status.confirmed_bands.contains(band) {
                return AlertLevel::UnconfBand;
            }
            if !status.confirmed_modes.contains(mode) {
                return AlertLevel::UnconfMode;
            }
            return AlertLevel::UnconfSlot;
        }
        AlertLevel::Worked
    }

    /// A level the operator switched off is not flagged at all.
    pub fn apply_filter(&self, level: AlertLevel) -> (r: AlertLevel)
        ensures
            r == filter_spec(*self.config, level),
    {
        let c = self.config;
        let keep = match level {
            AlertLevel::NewDxcc => c.alert_new_dxcc,
            AlertLevel::NewSlot => c.alert_new_slot,
            AlertLevel::NewBand => c.alert_new_band,
            AlertLevel::NewMode => c.alert_new_mode,
            AlertLevel::UnconfDxcc => c.alert_unconf_dxcc,
            AlertLevel::UnconfSlot => c.alert_unconf_slot,
            AlertLevel::UnconfBand => c.alert_unconf_band,
            AlertLevel::UnconfMode => c.alert_unconf_mode,
            AlertLevel::NewGrid => c.alert_new_grid,
            AlertLevel::UnconfGrid => c.alert_unconf_grid,
            AlertLevel::NewState => c.alert_new_state,
            AlertLevel::UnconfState => c.alert_unconf_state,
            AlertLevel::NewIota => c.alert_new_iota,
            AlertLevel::UnconfIota => c.alert_unconf_iota,
            AlertLevel::Worked | AlertLevel::NoAlert => return level,
        };
        if keep {
            level
        } else {
            AlertLevel::Worked
        }
    }
}

// ---------------------------------------------------------------------------
// Laws
// ---------------------------------------------------------------------------

/// What the DXCC ladder answers for a spot with a mode, gap by gap: an
/// entity never worked is new; a band never worked on the entity is a new
/// band; a worked band in a never-worked mode is a new mode; a worked band
/// and mode never worked together is a new slot. Once the slot is in the
/// log: nothing confirmed for the entity at all is an unconfirmed entity;
/// otherwise an unconfirmed band, then an unconfirmed mode, and with band
/// and mode each confirmed but not this slot, an unconfirmed slot. Only a
/// confirmed slot is merely worked.
pub proof fn law_the_dxcc_ladder(dv: Seq<(i32, DxccView)>, dxcc: i32, band: Seq<char>, m: Seq<char>)
    ensures
        ({
            let r = raw_level_spec(dv, dxcc, band, Some(m));
            let slot = band + seq!['-'] + m;
            &&& (get(dv, dxcc) is None ==> r == AlertLevel::NewDxcc)
            &&& (get(dv, dxcc) matches Some(st) ==> {
                &&& (!st.slots.contains(slot) && !st.bands.contains(band) ==> r == AlertLevel::NewBand)
                &&& (!st.slots.contains(slot) && st.bands.contains(band) && !st.modes.contains(m)
                    ==> r == AlertLevel::NewMode)
                &&& (!st.slots.contains(slot) && st.bands.contains(band) && st.modes.contains(m)
                    ==> r == AlertLevel::NewSlot)
                &&& (st.slots.contains(slot) && st.confirmed_slots.len() == 0 ==> r == AlertLevel::UnconfDxcc)
                &&& (st.slots.contains(slot) && st.confirmed_slots.len() > 0 && !st.confirmed_slots.contains(slot)
                    && !st.confirmed_bands.contains(band) ==> r == AlertLevel::UnconfBand)
                &&& (st.slots.contains(slot) && st.confirmed_slots.len() > 0 && !st.confirmed_slots.contains(slot)
                    && st.confirmed_bands.contains(band) && !st.confirmed_modes.contains(m)
                    ==> r == AlertLevel::UnconfMode)
                &&& (st.slots.contains(slot) && st.confirmed_slots.len() > 0 && !st.confirmed_slots.contains(slot)
                    && st.confirmed_bands.contains(band) && st.confirmed_modes.contains(m)
                    ==> r == AlertLevel::UnconfSlot)
                &&& (r == AlertLevel::Worked <==> st.slots.contains(slot) && st.confirmed_slots.contains(slot))
            })
        }),
{
}

/// What the ladder answers for a spot without a mode: new entity, new
/// band, nothing confirmed for the entity, unconfirmed band, and only a
/// confirmed band is merely worked.
pub proof fn law_the_band_only_ladder(dv: Seq<(i32, DxccView)>, dxcc: i32, band: Seq<char>)
    ensures
        ({
            let r = raw_level_spec(dv, dxcc, band, None);
            &&& (get(dv, dxcc) is None ==> r == AlertLevel::NewDxcc)
            &&& (get(dv, dxcc) matches Some(st) ==> {
                &&& (!st.bands.contains(band) ==> r == AlertLevel::NewBand)
                &&& (st.bands.contains(band) && st.confirmed_slots.len() == 0 ==> r == AlertLevel::UnconfDxcc)
                &&& (st.bands.contains(band) && st.confirmed_slots.len() > 0 && !st.confirmed_bands.contains(band)
                    ==> r == AlertLevel::UnconfBand)
                &&& (r == AlertLevel::Worked <==> st.bands.contains(band) && st.confirmed_slots.len() > 0
                    && st.confirmed_bands.contains(band))
            })
        }),
{
}

/// The `?` levels are exactly the levels whose key starts with `unconf`.
pub proof fn law_unconfirmed_is_the_unconf_half(l: AlertLevel)
    ensures
        unconfirmed_spec(l) <==> crate::text::starts_with(key_spec(l), "unconf"@),
{
    reveal_strlit("unconf");
    reveal_strlit("none");
    reveal_strlit("worked");
    reveal_strlit("newMode");
    reveal_strlit("newBand");
    reveal_strlit("newSlot");
    reveal_strlit("newDXCC");
    reveal_strlit("unconfMode");
    reveal_strlit("unconfBand");
    reveal_strlit("unconfSlot");
    reveal_strlit("unconfDXCC");
    reveal_strlit("newGrid");
    reveal_strlit("newState");
    reveal_strlit("newIOTA");
    reveal_strlit("unconfGrid");
    reveal_strlit("unconfState");
    reveal_strlit("unconfIOTA");
    let k = key_spec(l);
    if unconfirmed_spec(l) {
        assert(k.take(6) =~= "unconf"@);
    } else if k.len() >= 6 {
        assert(k.take(6)[0] != 'u' || k.take(6)[1] != 'n');
    }
}

/// A level's rank is its position in the flaggable order, and every level
/// outside that order ranks below all of it.
pub proof fn law_rank_is_flaggable_position(i: int)
    requires
        0 <= i < 14,
    ensures
        rank_spec(flaggable_spec()[i]) == i,
        rank_spec(AlertLevel::Worked) > rank_spec(flaggable_spec()[i]),
        rank_spec(AlertLevel::NoAlert) > rank_spec(flaggable_spec()[i]),
{
}

/// Every never-worked level ranks above every worked-but-unconfirmed one.
pub proof fn law_new_levels_outrank_unconfirmed(a: AlertLevel, b: AlertLevel)
    requires
        flaggable_spec().contains(a),
        !unconfirmed_spec(a),
        unconfirmed_spec(b),
    ensures
        rank_spec(a) < rank_spec(b),
{
    let i = choose|i: int| 0 <= i < flaggable_spec().len() && flaggable_spec()[i] == a;
    assert(0 <= i < 14);
}

/// With no mode, only the band half of the ladder answers: no mode or slot
/// level is ever claimed.
pub proof fn law_no_mode_answers_only_bands(dv: Seq<(i32, DxccView)>, dxcc: i32, band: Seq<char>)
    ensures
        ({
            let l = raw_level_spec(dv, dxcc, band, None);
            l != AlertLevel::NewMode && l != AlertLevel::NewSlot && l != AlertLevel::UnconfMode
                && l != AlertLevel::UnconfSlot
        }),
{
}

/// Beacons never alert.
pub proof fn law_beacons_never_alert(
    m: MatrixView,
    res: DxccResolver,
    c: AlertConfig,
    callsign: Seq<char>,
    freq: u64,
    mode: Seq<char>,
    refs: RefsView,
)
    ensures
        classify_spec(m, res, c, callsign, freq, mode, refs).is_beacon ==> classify_spec(
            m,
            res,
            c,
            callsign,
            freq,
            mode,
            refs,
        ).level == AlertLevel::NoAlert,
{
}

proof fn lemma_consider_enabled(c: AlertConfig, best: Option<(AlertLevel, Seq<char>)>, cand: Option<(AlertLevel, Seq<char>)>)
    requires
        best matches Some(b) ==> filter_spec(c, b.0) == b.0,
    ensures
        consider(c, best, cand) matches Some(r) ==> filter_spec(c, r.0) == r.0,
{
}

/// Disabled alert levels never come out of classification: the level a
/// spot receives is always one that the configuration keeps.
pub proof fn law_switched_off_levels_never_flag(
    m: MatrixView,
    res: DxccResolver,
    c: AlertConfig,
    callsign: Seq<char>,
    freq: u64,
    mode: Seq<char>,
    refs: RefsView,
)
    ensures
        ({
            let l = classify_spec(m, res, c, callsign, freq, mode, refs).level;
            filter_spec(c, l) == l
        }),
{
    let band = match first_row(band_rows(), freq as int, true) {
        Some(b) => Some(b@),
        None => None,
    };
    if let Some(b) = band {
        let dxcc_id = resolve_spec(res.ents(), res.rules(), res.now(), callsign);
        let g = consider(c, None, grid_candidate(m, refs, b));
        lemma_consider_enabled(c, None, grid_candidate(m, refs, b));
        let s = consider(c, g, state_candidate(m, refs, dxcc_id));
        lemma_consider_enabled(c, g, state_candidate(m, refs, dxcc_id));
        lemma_consider_enabled(c, s, iota_candidate(m, refs));
    }
}

} // verus!
