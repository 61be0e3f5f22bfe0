//! Per-user worked/confirmed matrix: DXCC entities by band, mode and
//! band-mode slot, and the award axes beyond DXCC — VUCC grid squares, WAS
//! states, IOTA references, CQ zones and the DX Marathon year.
//!
//! Every map and set keeps its keys in arrival order, so each count below
//! is stated over that sequence.

use crate::assoc::{add_new, distinct_keys, get, key_index, keys_of, upsert, IntMap, IntSet, StrMap, StrSet};
use crate::awards::{iota_spec, state_code, us_states};
use crate::bands::{challenge_bands_spec, selectable_bands, selectable_bands_spec, vucc_bands_spec};
use crate::modes::{classes, classes_spec};
use crate::adif::{adif_spec, confirmed_spec, field_i32, qso_unix_spec, qso_year_spec, record_views};
use crate::awards::was_entity;
use crate::cty::{covers, entity_of};
use crate::dxcc::{resolve_spec, whitelist_rejected_spec, zone_spec, DxccResolver};
use crate::modes::canonical_spec;
use crate::text::{chars_of, extend_chars, split_once, string_of, trim, unicode_lower, unicode_upper, views};
use vstd::prelude::*;

verus! {

// ---------------------------------------------------------------------------
// One DXCC entity
// ---------------------------------------------------------------------------

/// What one entity's status holds: worked bands, modes and `BAND-MODE`
/// slots, and the confirmed subset of each.
pub struct DxccView {
    pub bands: Seq<Seq<char>>,
    pub modes: Seq<Seq<char>>,
    pub slots: Seq<Seq<char>>,
    pub confirmed_bands: Seq<Seq<char>>,
    pub confirmed_modes: Seq<Seq<char>>,
    pub confirmed_slots: Seq<Seq<char>>,
}

/// The `20M-DATA`-style slot key.
pub open spec fn slot_key(band: Seq<char>, mode: Seq<char>) -> Seq<char> {
    band + seq!['-'] + mode
}

pub open spec fn empty_dxcc() -> DxccView {
    DxccView {
        bands: Seq::empty(),
        modes: Seq::empty(),
        slots: Seq::empty(),
        confirmed_bands: Seq::empty(),
        confirmed_modes: Seq::empty(),
        confirmed_slots: Seq::empty(),
    }
}

/// `v` after one contact on `band` in `mode`.
pub open spec fn dxcc_recorded(
    v: DxccView,
    band: Seq<char>,
    mode: Seq<char>,
    confirmed: bool,
) -> DxccView {
    DxccView {
        bands: add_new(v.bands, band),
        modes: add_new(v.modes, mode),
        slots: add_new(v.slots, slot_key(band, mode)),
        confirmed_bands: if confirmed {
            add_new(v.confirmed_bands, band)
        } else {
            v.confirmed_bands
        },
        confirmed_modes: if confirmed {
            add_new(v.confirmed_modes, mode)
        } else {
            v.confirmed_modes
        },
        confirmed_slots: if confirmed {
            add_new(v.confirmed_slots, slot_key(band, mode))
        } else {
            v.confirmed_slots
        },
    }
}

/// Worked/confirmed state of one DXCC entity.
#[derive(Debug, PartialEq, Eq)]
pub struct DxccStatus {
    /// All worked, regardless of confirmation.
    pub bands: StrSet,
    pub modes: StrSet,
    /// `20M-DATA`-style band-mode slots.
    pub slots: StrSet,
    pub confirmed_bands: StrSet,
    pub confirmed_modes: StrSet,
    pub confirmed_slots: StrSet,
}

impl View for DxccStatus {
    type V = DxccView;

    open spec fn view(&self) -> DxccView {
        DxccView {
            bands: self.bands.model(),
            modes: self.modes.model(),
            slots: self.slots.model(),
            confirmed_bands: self.confirmed_bands.model(),
            confirmed_modes: self.confirmed_modes.model(),
            confirmed_slots: self.confirmed_slots.model(),
        }
    }
}

impl DxccStatus {
    pub open spec fn wf(&self) -> bool {
        &&& self.bands.wf()
        &&& self.modes.wf()
        &&& self.slots.wf()
        &&& self.confirmed_bands.wf()
        &&& self.confirmed_modes.wf()
        &&& self.confirmed_slots.wf()
    }

    pub fn new() -> (s: DxccStatus)
        ensures
            s.wf(),
            s@ == empty_dxcc(),
    {
        DxccStatus {
            bands: StrSet::new(),
            modes: StrSet::new(),
            slots: StrSet::new(),
            confirmed_bands: StrSet::new(),
            confirmed_modes: StrSet::new(),
            confirmed_slots: StrSet::new(),
        }
    }

    fn record(&mut self, band: &str, mode: &str, confirmed: bool)
        requires
            old(self).wf(),
        ensures
            final(self).wf(),
            final(self)@ == dxcc_recorded(old(self)@, band@, mode@, confirmed),
    {
        let mut sv = chars_of(band);
        sv.push('-');
        let mv = chars_of(mode);
        extend_chars(&mut sv, mv.as_slice());
        let slot = string_of(sv.as_slice());
        assert(slot@ == slot_key(band@, mode@));
        self.bands.insert(band.to_owned());
        self.modes.insert(mode.to_owned());
        self.slots.insert(slot.clone());
        if confirmed {
            self.confirmed_bands.insert(band.to_owned());
            self.confirmed_modes.insert(mode.to_owned());
            self.confirmed_slots.insert(slot);
        }
    }
}

// ---------------------------------------------------------------------------
// One award key (grid square, state, island, zone)
// ---------------------------------------------------------------------------

/// What one award key's status holds: worked and confirmed bands, and
/// worked and confirmed mode classes.
pub struct AwardView {
    pub bands: Seq<Seq<char>>,
    pub confirmed_bands: Seq<Seq<char>>,
    pub modes: Seq<Seq<char>>,
    pub confirmed_modes: Seq<Seq<char>>,
}

pub open spec fn empty_award() -> AwardView {
    AwardView {
        bands: Seq::empty(),
        confirmed_bands: Seq::empty(),
        modes: Seq::empty(),
        confirmed_modes: Seq::empty(),
    }
}

/// `v` after one contact on `band`, in mode class `mode` when known.
pub open spec fn award_recorded(
    v: AwardView,
    band: Seq<char>,
    mode: Option<Seq<char>>,
    confirmed: bool,
) -> AwardView {
    AwardView {
        bands: add_new(v.bands, band),
        confirmed_bands: if confirmed {
            add_new(v.confirmed_bands, band)
        } else {
            v.confirmed_bands
        },
        modes: match mode {
            Some(m) => add_new(v.modes, m),
            None => v.modes,
        },
        confirmed_modes: match mode {
            Some(m) => if confirmed {
                add_new(v.confirmed_modes, m)
            } else {
                v.confirmed_modes
            },
            None => v.confirmed_modes,
        },
    }
}

/// Worked/confirmed state for one non-DXCC award key. Bands, and the
/// CW / PHONE / DATA mode class.
#[derive(Debug, PartialEq, Eq)]
pub struct AwardStatus {
    pub bands: StrSet,
    pub confirmed_bands: StrSet,
    pub modes: StrSet,
    pub confirmed_modes: StrSet,
}

impl View for AwardStatus {
    type V = AwardView;

    open spec fn view(&self) -> AwardView {
        AwardView {
            bands: self.bands.model(),
            confirmed_bands: self.confirmed_bands.model(),
            modes: self.modes.model(),
            confirmed_modes: self.confirmed_modes.model(),
        }
    }
}

pub open spec fn opt_view(m: Option<&str>) -> Option<Seq<char>> {
    match m {
        Some(s) => Some(s@),
        None => None,
    }
}

impl AwardStatus {
    pub open spec fn wf(&self) -> bool {
        &&& self.bands.wf()
        &&& self.confirmed_bands.wf()
        &&& self.modes.wf()
        &&& self.confirmed_modes.wf()
    }

    pub fn new() -> (s: AwardStatus)
        ensures
            s.wf(),
            s@ == empty_award(),
    {
        AwardStatus {
            bands: StrSet::new(),
            confirmed_bands: StrSet::new(),
            modes: StrSet::new(),
            confirmed_modes: StrSet::new(),
        }
    }

    fn record(&mut self, band: &str, mode: Option<&str>, confirmed: bool)
        requires
            old(self).wf(),
        ensures
            final(self).wf(),
            final(self)@ == award_recorded(old(self)@, band@, opt_view(mode), confirmed),
    {
        self.bands.insert(band.to_owned());
        if confirmed {
            self.confirmed_bands.insert(band.to_owned());
        }
        if let Some(m) = mode {
            self.modes.insert(m.to_owned());
            if confirmed {
                self.confirmed_modes.insert(m.to_owned());
            }
        }
    }

    /// Confirmed at the key level — on any band. What WAS and IOTA count.
    pub fn is_confirmed(&self) -> (r: bool)
        ensures
            r == (self@.confirmed_bands.len() > 0),
    {
        !self.confirmed_bands.is_empty()
    }
}

// ---------------------------------------------------------------------------
// One Marathon year
// ---------------------------------------------------------------------------

/// `a + b`, or `usize::MAX` when that does not fit.
pub open spec fn sat(n: nat) -> nat {
    if n > usize::MAX {
        usize::MAX as nat
    } else {
        n
    }
}

/// One calendar year of DX Marathon: entities and zones worked.
#[derive(Debug, PartialEq, Eq)]
pub struct MarathonYear {
    pub entities: IntSet,
    pub zones: IntSet,
}

impl MarathonYear {
    pub open spec fn wf(&self) -> bool {
        self.entities.wf() && self.zones.wf()
    }

    pub fn new() -> (y: MarathonYear)
        ensures
            y.wf(),
            y.entities.model() == Seq::<i32>::empty(),
            y.zones.model() == Seq::<i32>::empty(),
    {
        MarathonYear { entities: IntSet::new(), zones: IntSet::new() }
    }

    /// The Marathon score: one point per entity plus one per zone
    /// (saturating at `usize::MAX`).
    pub fn score(&self) -> (r: usize)
        ensures
            r == sat(self.entities.model().len() + self.zones.model().len()),
    {
        self.entities.len().saturating_add(self.zones.len())
    }
}

// ---------------------------------------------------------------------------
// Views of the maps
// ---------------------------------------------------------------------------

pub open spec fn dxcc_views(s: Seq<(i32, DxccStatus)>) -> Seq<(i32, DxccView)> {
    s.map_values(|p: (i32, DxccStatus)| (p.0, p.1@))
}

pub open spec fn award_views<K>(s: Seq<(K, AwardStatus)>) -> Seq<(K, AwardView)> {
    s.map_values(|p: (K, AwardStatus)| (p.0, p.1@))
}

/// The entities and zones of each Marathon year.
pub open spec fn year_views(s: Seq<(i32, MarathonYear)>) -> Seq<(i32, (Seq<i32>, Seq<i32>))> {
    s.map_values(|p: (i32, MarathonYear)| (p.0, (p.1.entities.model(), p.1.zones.model())))
}

pub proof fn lemma_key_index_views<K, V, W>(s: Seq<(K, V)>, t: Seq<(K, W)>, k: K)
    requires
        s.len() == t.len(),
        forall|i: int| 0 <= i < s.len() ==> #[trigger] s[i].0 == t[i].0,
    ensures
        key_index(s, k) == key_index(t, k),
    decreases s.len(),
{
    if s.len() > 0 {
        lemma_key_index_views(s.drop_first(), t.drop_first(), k);
    }
}

/// Every status in a map is well formed.
pub open spec fn all_wf_dxcc(s: Seq<(i32, DxccStatus)>) -> bool {
    forall|i: int| 0 <= i < s.len() ==> (#[trigger] s[i]).1.wf()
}

pub open spec fn all_wf_award<K>(s: Seq<(K, AwardStatus)>) -> bool {
    forall|i: int| 0 <= i < s.len() ==> (#[trigger] s[i]).1.wf()
}

pub open spec fn all_wf_year(s: Seq<(i32, MarathonYear)>) -> bool {
    forall|i: int| 0 <= i < s.len() ==> (#[trigger] s[i]).1.wf()
}

/// The value under `k` in an upsert-style update: the recorded value of
/// whatever was there (or of `empty` when nothing was).
pub open spec fn prior<K, V>(s: Seq<(K, V)>, k: K, empty: V) -> V {
    match get(s, k) {
        Some(v) => v,
        None => empty,
    }
}


// ---------------------------------------------------------------------------
// Recording into one map entry
// ---------------------------------------------------------------------------

fn record_award_text(
    map: &mut StrMap<AwardStatus>,
    key: String,
    band: &str,
    mode: Option<&str>,
    confirmed: bool,
)
    requires
        old(map).wf(),
        all_wf_award(old(map).model()),
    ensures
        final(map).wf(),
        all_wf_award(final(map).model()),
        award_views(final(map).model()) == upsert(
            award_views(old(map).model()),
            key@,
            award_recorded(
                prior(award_views(old(map).model()), key@, empty_award()),
                band@,
                opt_view(mode),
                confirmed,
            ),
        ),
{
    let ghost k = key@;
    let ghost old_m = map.model();
    let ghost ov = award_views(old_m);
    proof {
        crate::assoc::lemma_key_index_props(old_m, k);
        lemma_key_index_views(old_m, ov, k);
    }
    let idx = map.index_or_insert(key, AwardStatus::new());
    let ghost mid = map.model();
    proof {
        crate::assoc::lemma_key_index_props(mid, k);
    }
    let mut s = map.replace_value(idx, AwardStatus::new());
    s.record(band, mode, confirmed);
    let _ = map.replace_value(idx, s);
    proof {
        let fin = map.model();
        let x = award_recorded(prior(ov, k, empty_award()), band@, opt_view(mode), confirmed);
        if get(old_m, k) is Some {
            assert(idx as int == key_index(old_m, k));
            assert(award_views(fin) =~= ov.update(idx as int, (k, x)));
        } else {
            assert(idx as int == old_m.len());
            assert(award_views(fin) =~= ov.push((k, x)));
        }
        assert forall|i: int| 0 <= i < fin.len() implies (#[trigger] fin[i]).1.wf() by {
            if i != idx {
                assert(fin[i] == mid[i]);
            }
        }
    }
}

fn record_award_int(
    map: &mut IntMap<AwardStatus>,
    key: i32,
    band: &str,
    mode: Option<&str>,
    confirmed: bool,
)
    requires
        old(map).wf(),
        all_wf_award(old(map).model()),
    ensures
        final(map).wf(),
        all_wf_award(final(map).model()),
        award_views(final(map).model()) == upsert(
            award_views(old(map).model()),
            key,
            award_recorded(
                prior(award_views(old(map).model()), key, empty_award()),
                band@,
                opt_view(mode),
                confirmed,
            ),
        ),
{
    let ghost k = key;
    let ghost old_m = map.model();
    let ghost ov = award_views(old_m);
    proof {
        crate::assoc::lemma_key_index_props(old_m, k);
        lemma_key_index_views(old_m, ov, k);
    }
    let idx = map.index_or_insert(key, AwardStatus::new());
    let ghost mid = map.model();
    proof {
        crate::assoc::lemma_key_index_props(mid, k);
    }
    let s = map.value_mut(idx);
    s.record(band, mode, confirmed);
    proof {
        let fin = map.model();
        let x = award_recorded(prior(ov, k, empty_award()), band@, opt_view(mode), confirmed);
        if get(old_m, k) is Some {
            assert(idx as int == key_index(old_m, k));
            assert(award_views(fin) =~= ov.update(idx as int, (k, x)));
        } else {
            assert(idx as int == old_m.len());
            assert(award_views(fin) =~= ov.push((k, x)));
        }
        assert forall|i: int| 0 <= i < fin.len() implies (#[trigger] fin[i]).1.wf() by {
            if i != idx {
                assert(fin[i] == mid[i]);
            }
        }
    }
}

fn record_dxcc_at(
    map: &mut IntMap<DxccStatus>,
    key: i32,
    band: &str,
    mode: &str,
    confirmed: bool,
)
    requires
        old(map).wf(),
        all_wf_dxcc(old(map).model()),
    ensures
        final(map).wf(),
        all_wf_dxcc(final(map).model()),
        dxcc_views(final(map).model()) == upsert(
            dxcc_views(old(map).model()),
            key,
            dxcc_recorded(
                prior(dxcc_views(old(map).model()), key, empty_dxcc()),
                band@,
                mode@,
                confirmed,
            ),
        ),
{
    let ghost k = key;
    let ghost old_m = map.model();
    let ghost ov = dxcc_views(old_m);
    proof {
        crate::assoc::lemma_key_index_props(old_m, k);
        lemma_key_index_views(old_m, ov, k);
    }
    let idx = map.index_or_insert(key, DxccStatus::new());
    let ghost mid = map.model();
    proof {
        crate::assoc::lemma_key_index_props(mid, k);
    }
    let s = map.value_mut(idx);
    s.record(band, mode, confirmed);
    proof {
        let fin = map.model();
        let x = dxcc_recorded(prior(ov, k, empty_dxcc()), band@, mode@, confirmed);
        if get(old_m, k) is Some {
            assert(idx as int == key_index(old_m, k));
            assert(dxcc_views(fin) =~= ov.update(idx as int, (k, x)));
        } else {
            assert(idx as int == old_m.len());
            assert(dxcc_views(fin) =~= ov.push((k, x)));
        }
        assert forall|i: int| 0 <= i < fin.len() implies (#[trigger] fin[i]).1.wf() by {
            if i != idx {
                assert(fin[i] == mid[i]);
            }
        }
    }
}


/// The Marathon year `(entities, zones)` after one contact: the entity
/// when known, the zone when it lies in 1–40.
pub open spec fn year_recorded(
    v: (Seq<i32>, Seq<i32>),
    dxcc: Option<i32>,
    zone: Option<i32>,
) -> (Seq<i32>, Seq<i32>) {
    (
        match dxcc {
            Some(d) => add_new(v.0, d),
            None => v.0,
        },
        match zone {
            Some(z) => if 1 <= z <= 40 {
                add_new(v.1, z)
            } else {
                v.1
            },
            None => v.1,
        },
    )
}

fn record_year_at(map: &mut IntMap<MarathonYear>, key: i32, dxcc: Option<i32>, zone: Option<i32>)
    requires
        old(map).wf(),
        all_wf_year(old(map).model()),
    ensures
        final(map).wf(),
        all_wf_year(final(map).model()),
        year_views(final(map).model()) == upsert(
            year_views(old(map).model()),
            key,
            year_recorded(
                prior(year_views(old(map).model()), key, (Seq::<i32>::empty(), Seq::<i32>::empty())),
                dxcc,
                zone,
            ),
        ),
{
    let ghost k = key;
    let ghost old_m = map.model();
    let ghost ov = year_views(old_m);
    proof {
        crate::assoc::lemma_key_index_props(old_m, k);
        lemma_key_index_views(old_m, ov, k);
    }
    let idx = map.index_or_insert(key, MarathonYear::new());
    let ghost mid = map.model();
    proof {
        crate::assoc::lemma_key_index_props(mid, k);
    }
    let y = map.value_mut(idx);
    if let Some(d) = dxcc {
        y.entities.insert(d);
    }
    if let Some(z) = zone {
        if 1 <= z && z <= 40 {
            y.zones.insert(z);
        }
    }
    proof {
        let fin = map.model();
        let x = year_recorded(prior(ov, k, (Seq::<i32>::empty(), Seq::<i32>::empty())), dxcc, zone);
        if get(old_m, k) is Some {
            assert(idx as int == key_index(old_m, k));
            assert(year_views(fin) =~= ov.update(idx as int, (k, x)));
        } else {
            assert(idx as int == old_m.len());
            assert(year_views(fin) =~= ov.push((k, x)));
        }
        assert forall|i: int| 0 <= i < fin.len() implies (#[trigger] fin[i]).1.wf() by {
            if i != idx {
                assert(fin[i] == mid[i]);
            }
        }
    }
}
// ---------------------------------------------------------------------------
// The matrix
// ---------------------------------------------------------------------------

/// Per-user worked/confirmed matrix.
#[derive(Debug, PartialEq, Eq)]
pub struct LogMatrix {
    pub by_dxcc: IntMap<DxccStatus>,
    /// Lowercased calls already worked.
    pub worked_calls: StrSet,
    /// VUCC: 4-character grid square → per-band state, 50 MHz and up only.
    pub by_grid: StrMap<AwardStatus>,
    /// WAS: two-letter state → per-band state.
    pub by_state: StrMap<AwardStatus>,
    /// IOTA: normalised reference (`AS-003`) → per-band state.
    pub by_iota: StrMap<AwardStatus>,
    /// WAZ: CQ zone 1–40 → per-band/mode state.
    pub by_zone: IntMap<AwardStatus>,
    /// DX Marathon: calendar year → entities and zones worked in it.
    pub by_year: IntMap<MarathonYear>,
}

impl LogMatrix {
    pub open spec fn wf(&self) -> bool {
        &&& self.by_dxcc.wf()
        &&& all_wf_dxcc(self.by_dxcc.model())
        &&& self.worked_calls.wf()
        &&& self.by_grid.wf()
        &&& all_wf_award(self.by_grid.model())
        &&& self.by_state.wf()
        &&& all_wf_award(self.by_state.model())
        &&& self.by_iota.wf()
        &&& all_wf_award(self.by_iota.model())
        &&& self.by_zone.wf()
        &&& all_wf_award(self.by_zone.model())
        &&& self.by_year.wf()
        &&& all_wf_year(self.by_year.model())
    }

    /// Entity → status, in arrival order.
    pub open spec fn dxcc(&self) -> Seq<(i32, DxccView)> {
        dxcc_views(self.by_dxcc.model())
    }

    pub open spec fn grids(&self) -> Seq<(Seq<char>, AwardView)> {
        award_views(self.by_grid.model())
    }

    pub open spec fn states(&self) -> Seq<(Seq<char>, AwardView)> {
        award_views(self.by_state.model())
    }

    pub open spec fn islands(&self) -> Seq<(Seq<char>, AwardView)> {
        award_views(self.by_iota.model())
    }

    pub open spec fn zones(&self) -> Seq<(i32, AwardView)> {
        award_views(self.by_zone.model())
    }

    pub open spec fn years(&self) -> Seq<(i32, (Seq<i32>, Seq<i32>))> {
        year_views(self.by_year.model())
    }

    pub open spec fn calls(&self) -> Seq<Seq<char>> {
        self.worked_calls.model()
    }

    /// An empty matrix.
    pub fn new() -> (m: LogMatrix)
        ensures
            m.wf(),
            m.dxcc() == Seq::<(i32, DxccView)>::empty(),
            m.calls() == Seq::<Seq<char>>::empty(),
            m.grids() == Seq::<(Seq<char>, AwardView)>::empty(),
            m.states() == Seq::<(Seq<char>, AwardView)>::empty(),
            m.islands() == Seq::<(Seq<char>, AwardView)>::empty(),
            m.zones() == Seq::<(i32, AwardView)>::empty(),
            m.years() == Seq::<(i32, (Seq<i32>, Seq<i32>))>::empty(),
    {
        let m = LogMatrix {
            by_dxcc: IntMap::new(),
            worked_calls: StrSet::new(),
            by_grid: StrMap::new(),
            by_state: StrMap::new(),
            by_iota: StrMap::new(),
            by_zone: IntMap::new(),
            by_year: IntMap::new(),
        };
        assert(m.dxcc() =~= Seq::<(i32, DxccView)>::empty());
        assert(m.grids() =~= Seq::<(Seq<char>, AwardView)>::empty());
        assert(m.states() =~= Seq::<(Seq<char>, AwardView)>::empty());
        assert(m.islands() =~= Seq::<(Seq<char>, AwardView)>::empty());
        assert(m.zones() =~= Seq::<(i32, AwardView)>::empty());
        assert(m.years() =~= Seq::<(i32, (Seq<i32>, Seq<i32>))>::empty());
        m
    }
}

impl Default for LogMatrix {
    fn default() -> (m: LogMatrix)
        ensures
            m.wf(),
            m.dxcc() == Seq::<(i32, DxccView)>::empty(),
            m.calls() == Seq::<Seq<char>>::empty(),
            m.grids() == Seq::<(Seq<char>, AwardView)>::empty(),
            m.states() == Seq::<(Seq<char>, AwardView)>::empty(),
            m.islands() == Seq::<(Seq<char>, AwardView)>::empty(),
            m.zones() == Seq::<(i32, AwardView)>::empty(),
            m.years() == Seq::<(i32, (Seq<i32>, Seq<i32>))>::empty(),
    {
        LogMatrix::new()
    }
}


impl LogMatrix {
    /// Record one DXCC contact: the entity gains the band, the mode and the
    /// `BAND-MODE` slot (and their confirmed twins when `confirmed`), and
    /// the lowercased call joins the worked calls.
    pub fn record(&mut self, dxcc: i32, band: &str, mode: &str, call: &str, confirmed: bool)
        requires
            old(self).wf(),
        ensures
            final(self).wf(),
            final(self).dxcc() == upsert(
                old(self).dxcc(),
                dxcc,
                dxcc_recorded(prior(old(self).dxcc(), dxcc, empty_dxcc()), band@, mode@, confirmed),
            ),
            final(self).calls() == add_new(old(self).calls(), unicode_lower(call@)),
            final(self).grids() == old(self).grids(),
            final(self).states() == old(self).states(),
            final(self).islands() == old(self).islands(),
            final(self).zones() == old(self).zones(),
            final(self).years() == old(self).years(),
    {
        record_dxcc_at(&mut self.by_dxcc, dxcc, band, mode, confirmed);
        let lower = crate::text::to_lower(call);
        self.worked_calls.insert(lower);
    }

    /// Record a VUCC grid credit: only a real locator (see
    /// [`grid4_spec`](crate::grid::grid4_spec)) on a VUCC band counts.
    /// Returns whether anything was recorded.
    pub fn record_grid(&mut self, locator: &str, band: &str, mode: Option<&str>, confirmed: bool) -> (r: bool)
        requires
            old(self).wf(),
        ensures
            final(self).wf(),
            r == (crate::grid::grid4_spec(locator@) is Some && views(vucc_bands_spec()).contains(band@)),
            final(self).grids() == (if r {
                let g = crate::grid::grid4_spec(locator@)->0;
                upsert(
                    old(self).grids(),
                    g,
                    award_recorded(prior(old(self).grids(), g, empty_award()), band@, opt_view(mode), confirmed),
                )
            } else {
                old(self).grids()
            }),
            final(self).dxcc() == old(self).dxcc(),
            final(self).calls() == old(self).calls(),
            final(self).states() == old(self).states(),
            final(self).islands() == old(self).islands(),
            final(self).zones() == old(self).zones(),
            final(self).years() == old(self).years(),
    {
        let g4 = match crate::grid::grid4(locator) {
            Some(g) => g,
            None => return false,
        };
        if !crate::bands::is_vucc_band(band) {
            return false;
        }
        record_award_text(&mut self.by_grid, g4, band, mode, confirmed);
        true
    }

    /// Record a WAS credit; territories and noise fall out, DC counts for
    /// MD (see [`state_code`](crate::awards::state_code)).
    pub fn record_state(&mut self, raw: &str, band: &str, mode: Option<&str>, confirmed: bool) -> (r: bool)
        requires
            old(self).wf(),
        ensures
            final(self).wf(),
            r == views(us_states()).contains(state_code(raw@)),
            final(self).states() == (if r {
                upsert(
                    old(self).states(),
                    state_code(raw@),
                    award_recorded(
                        prior(old(self).states(), state_code(raw@), empty_award()),
                        band@,
                        opt_view(mode),
                        confirmed,
                    ),
                )
            } else {
                old(self).states()
            }),
            final(self).dxcc() == old(self).dxcc(),
            final(self).calls() == old(self).calls(),
            final(self).grids() == old(self).grids(),
            final(self).islands() == old(self).islands(),
            final(self).zones() == old(self).zones(),
            final(self).years() == old(self).years(),
    {
        let st = match crate::awards::normalize_state(raw) {
            Some(st) => st,
            None => return false,
        };
        record_award_text(&mut self.by_state, st.to_owned(), band, mode, confirmed);
        true
    }

    /// Record a CQ-zone credit (WAZ). Zones outside 1–40 are refused.
    pub fn record_zone(&mut self, zone: i32, band: &str, mode: Option<&str>, confirmed: bool) -> (r: bool)
        requires
            old(self).wf(),
        ensures
            final(self).wf(),
            r == (1 <= zone <= 40),
            final(self).zones() == (if r {
                upsert(
                    old(self).zones(),
                    zone,
                    award_recorded(prior(old(self).zones(), zone, empty_award()), band@, opt_view(mode), confirmed),
                )
            } else {
                old(self).zones()
            }),
            final(self).dxcc() == old(self).dxcc(),
            final(self).calls() == old(self).calls(),
            final(self).grids() == old(self).grids(),
            final(self).states() == old(self).states(),
            final(self).islands() == old(self).islands(),
            final(self).years() == old(self).years(),
    {
        if !(1 <= zone && zone <= 40) {
            return false;
        }
        record_award_int(&mut self.by_zone, zone, band, mode, confirmed);
        true
    }

    /// Record a DX Marathon credit for the year a contact was made; with
    /// neither an entity nor a zone nothing is recorded.
    pub fn record_marathon(&mut self, year: i32, dxcc: Option<i32>, zone: Option<i32>)
        requires
            old(self).wf(),
        ensures
            final(self).wf(),
            final(self).years() == (if dxcc is None && zone is None {
                old(self).years()
            } else {
                upsert(
                    old(self).years(),
                    year,
                    year_recorded(
                        prior(old(self).years(), year, (Seq::<i32>::empty(), Seq::<i32>::empty())),
                        dxcc,
                        zone,
                    ),
                )
            }),
            final(self).dxcc() == old(self).dxcc(),
            final(self).calls() == old(self).calls(),
            final(self).grids() == old(self).grids(),
            final(self).states() == old(self).states(),
            final(self).islands() == old(self).islands(),
            final(self).zones() == old(self).zones(),
    {
        if dxcc.is_none() && zone.is_none() {
            return;
        }
        record_year_at(&mut self.by_year, year, dxcc, zone);
    }

    /// Record an IOTA credit under the normalised reference.
    pub fn record_iota(&mut self, raw: &str, band: &str, mode: Option<&str>, confirmed: bool) -> (r: bool)
        requires
            old(self).wf(),
        ensures
            final(self).wf(),
            r == iota_spec(raw@) is Some,
            final(self).islands() == (if r {
                let k = iota_spec(raw@)->0;
                upsert(
                    old(self).islands(),
                    k,
                    award_recorded(prior(old(self).islands(), k, empty_award()), band@, opt_view(mode), confirmed),
                )
            } else {
                old(self).islands()
            }),
            final(self).dxcc() == old(self).dxcc(),
            final(self).calls() == old(self).calls(),
            final(self).grids() == old(self).grids(),
            final(self).states() == old(self).states(),
            final(self).zones() == old(self).zones(),
            final(self).years() == old(self).years(),
    {
        let r = match crate::awards::normalize_iota(raw) {
            Some(r) => r,
            None => return false,
        };
        record_award_text(&mut self.by_iota, r, band, mode, confirmed);
        true
    }

    /// The status of one entity.
    pub fn status(&self, dxcc: i32) -> (r: Option<&DxccStatus>)
        ensures
            match r {
                Some(s) => get(self.dxcc(), dxcc) == Some(s@),
                None => get(self.dxcc(), dxcc) is None,
            },
    {
        proof {
            lemma_key_index_views(self.by_dxcc.model(), self.dxcc(), dxcc);
        }
        self.by_dxcc.get(dxcc)
    }

    /// The status of one grid square, state, island or zone.
    pub fn grid(&self, square: &str) -> (r: Option<&AwardStatus>)
        ensures
            match r {
                Some(s) => get(self.grids(), square@) == Some(s@),
                None => get(self.grids(), square@) is None,
            },
    {
        proof {
            lemma_key_index_views(self.by_grid.model(), self.grids(), square@);
        }
        let k = chars_of(square);
        self.by_grid.get(k.as_slice())
    }

    pub fn state(&self, code: &str) -> (r: Option<&AwardStatus>)
        ensures
            match r {
                Some(s) => get(self.states(), code@) == Some(s@),
                None => get(self.states(), code@) is None,
            },
    {
        proof {
            lemma_key_index_views(self.by_state.model(), self.states(), code@);
        }
        let k = chars_of(code);
        self.by_state.get(k.as_slice())
    }

    pub fn island(&self, reference: &str) -> (r: Option<&AwardStatus>)
        ensures
            match r {
                Some(s) => get(self.islands(), reference@) == Some(s@),
                None => get(self.islands(), reference@) is None,
            },
    {
        proof {
            lemma_key_index_views(self.by_iota.model(), self.islands(), reference@);
        }
        let k = chars_of(reference);
        self.by_iota.get(k.as_slice())
    }

    pub fn zone(&self, zone: i32) -> (r: Option<&AwardStatus>)
        ensures
            match r {
                Some(s) => get(self.zones(), zone) == Some(s@),
                None => get(self.zones(), zone) is None,
            },
    {
        proof {
            lemma_key_index_views(self.by_zone.model(), self.zones(), zone);
        }
        self.by_zone.get(zone)
    }

    /// Is this call already in the log? Exact (case-insensitive), then the
    /// part before the first `/`, then the part after it.
    pub fn has_worked_call(&self, callsign: &str) -> (r: bool)
        ensures
            r == worked_spec(self.calls(), callsign@),
    {
        let lower = crate::text::to_lower(callsign);
        if self.worked_calls.contains(lower.as_str()) {
            return true;
        }
        let v = chars_of(lower.as_str());
        let slash = crate::text::find_char(v.as_slice(), 0, v.len(), '/');
        assert(v@.subrange(0, v.len() as int) =~= v@);
        if slash >= v.len() {
            return false;
        }
        let bare = crate::text::slice_vec(v.as_slice(), 0, slash);
        let suffix = crate::text::slice_vec(v.as_slice(), slash + 1, v.len());
        assert(bare@ =~= v@.take(slash as int));
        assert(suffix@ =~= v@.skip(slash + 1));
        self.worked_calls.contains_chars(bare.as_slice()) || self.worked_calls.contains_chars(
            suffix.as_slice(),
        )
    }

    /// Number of entities worked.
    pub fn total_dxcc_count(&self) -> (r: usize)
        ensures
            r == self.dxcc().len(),
    {
        self.by_dxcc.len()
    }
}

/// Whether `call` is among the worked calls: lowercased exact, or either
/// side of its first `/`.
pub open spec fn worked_spec(calls: Seq<Seq<char>>, call: Seq<char>) -> bool {
    let l = unicode_lower(call);
    calls.contains(l) || match split_once(l, '/') {
        Some((bare, suffix)) => calls.contains(bare) || calls.contains(suffix),
        None => false,
    }
}

// ---------------------------------------------------------------------------
// DXCC totals
// ---------------------------------------------------------------------------

/// One of an entity's six sets.
pub enum Axis {
    Bands,
    Modes,
    Slots,
    ConfirmedBands,
    ConfirmedModes,
    ConfirmedSlots,
}

pub open spec fn axis(v: DxccView, a: Axis) -> Seq<Seq<char>> {
    match a {
        Axis::Bands => v.bands,
        Axis::Modes => v.modes,
        Axis::Slots => v.slots,
        Axis::ConfirmedBands => v.confirmed_bands,
        Axis::ConfirmedModes => v.confirmed_modes,
        Axis::ConfirmedSlots => v.confirmed_slots,
    }
}

fn axis_set(s: &DxccStatus, a: Axis) -> (r: &StrSet)
    ensures
        r.model() == axis(s@, a),
{
    match a {
        Axis::Bands => &s.bands,
        Axis::Modes => &s.modes,
        Axis::Slots => &s.slots,
        Axis::ConfirmedBands => &s.confirmed_bands,
        Axis::ConfirmedModes => &s.confirmed_modes,
        Axis::ConfirmedSlots => &s.confirmed_slots,
    }
}

/// Entities outside `skip` whose set `a` holds `key`.
pub open spec fn count_holding(s: Seq<(i32, DxccView)>, skip: Set<i32>, a: Axis, key: Seq<char>) -> nat
    decreases s.len(),
{
    if s.len() == 0 {
        0
    } else {
        count_holding(s.drop_last(), skip, a, key) + if !skip.contains(s.last().0) && axis(
            s.last().1,
            a,
        ).contains(key) {
            1nat
        } else {
            0nat
        }
    }
}

/// Entities outside `skip`.
pub open spec fn count_kept(s: Seq<(i32, DxccView)>, skip: Set<i32>) -> nat
    decreases s.len(),
{
    if s.len() == 0 {
        0
    } else {
        count_kept(s.drop_last(), skip) + if !skip.contains(s.last().0) {
            1nat
        } else {
            0nat
        }
    }
}

/// Entities outside `skip` with at least one confirmed slot.
pub open spec fn count_confirmed(s: Seq<(i32, DxccView)>, skip: Set<i32>) -> nat
    decreases s.len(),
{
    if s.len() == 0 {
        0
    } else {
        count_confirmed(s.drop_last(), skip) + if !skip.contains(s.last().0)
            && s.last().1.confirmed_slots.len() > 0 {
            1nat
        } else {
            0nat
        }
    }
}

/// How many of `bands` are DXCC Challenge bands.
pub open spec fn challenge_count(bands: Seq<Seq<char>>) -> nat
    decreases bands.len(),
{
    if bands.len() == 0 {
        0
    } else {
        challenge_count(bands.drop_last()) + if views(challenge_bands_spec()).contains(bands.last()) {
            1nat
        } else {
            0nat
        }
    }
}

/// Total over entities outside `skip` of the size of set `a`.
pub open spec fn sum_sizes(s: Seq<(i32, DxccView)>, skip: Set<i32>, a: Axis) -> nat
    decreases s.len(),
{
    if s.len() == 0 {
        0
    } else {
        sum_sizes(s.drop_last(), skip, a) + if !skip.contains(s.last().0) {
            axis(s.last().1, a).len()
        } else {
            0nat
        }
    }
}

/// Challenge points (entity × Challenge band) over entities outside
/// `skip`, counting set `a` (worked or confirmed bands).
pub open spec fn sum_challenge(s: Seq<(i32, DxccView)>, skip: Set<i32>, a: Axis) -> nat
    decreases s.len(),
{
    if s.len() == 0 {
        0
    } else {
        sum_challenge(s.drop_last(), skip, a) + if !skip.contains(s.last().0) {
            challenge_count(axis(s.last().1, a))
        } else {
            0nat
        }
    }
}

/// What the station card reports.
#[derive(Debug, Clone, Copy, Default, PartialEq, Eq)]
pub struct MatrixStats {
    pub dxcc_worked: usize,
    pub dxcc_confirmed: usize,
    /// Band × mode combinations.
    pub slots_worked: usize,
    pub slots_confirmed: usize,
    /// DXCC Challenge points: entity × band over the ten Challenge bands.
    pub challenge_worked: usize,
    pub challenge_confirmed: usize,
}

/// The totals over entities outside `skip`; the two sums saturate at
/// `usize::MAX`.
pub open spec fn stats_spec(s: Seq<(i32, DxccView)>, skip: Set<i32>, r: MatrixStats) -> bool {
    &&& r.dxcc_worked == count_kept(s, skip)
    &&& r.dxcc_confirmed == count_confirmed(s, skip)
    &&& r.slots_worked == sat(sum_sizes(s, skip, Axis::Slots))
    &&& r.slots_confirmed == sat(sum_sizes(s, skip, Axis::ConfirmedSlots))
    &&& r.challenge_worked == sat(sum_challenge(s, skip, Axis::Bands))
    &&& r.challenge_confirmed == sat(sum_challenge(s, skip, Axis::ConfirmedBands))
}

fn challenge_in(set: &StrSet) -> (r: usize)
    ensures
        r == challenge_count(set.model()),
{
    let ghost m = set.model();
    let mut n: usize = 0;
    let mut i: usize = 0;
    assert(m.take(0) =~= Seq::<Seq<char>>::empty());
    while i < set.len()
        invariant
            i <= set.model().len(),
            m == set.model(),
            n == challenge_count(m.take(i as int)),
            n <= i,
        decreases set.model().len() - i,
    {
        assert(m.take(i + 1).drop_last() =~= m.take(i as int));
        if crate::bands::is_challenge_band(set.get(i).as_str()) {
            n = n + 1;
        }
        i = i + 1;
    }
    assert(m.take(m.len() as int) =~= m);
    n
}

fn skipped(skip: &std::collections::HashSet<i32>, k: i32) -> (r: bool)
    ensures
        r == skip@.contains(k),
{
    broadcast use vstd::std_specs::hash::group_hash_axioms;

    skip.contains(&k)
}

impl LogMatrix {
    /// Award totals. Confirmed DXCC counts entities with at least one
    /// confirmed slot.
    pub fn stats(&self) -> (r: MatrixStats)
        ensures
            stats_spec(self.dxcc(), Set::empty(), r),
    {
        broadcast use vstd::std_specs::hash::group_hash_axioms;

        let none: std::collections::HashSet<i32> = std::collections::HashSet::new();
        assert(none@ =~= Set::<i32>::empty());
        self.stats_excluding(&none)
    }

    /// [`stats`](Self::stats) with the entities in `skip` left out — the
    /// ARRL deleted list, in practice. They stay in the matrix; they simply
    /// stop scoring.
    pub fn stats_excluding(&self, skip: &std::collections::HashSet<i32>) -> (r: MatrixStats)
        ensures
            stats_spec(self.dxcc(), skip@, r),
    {
        let ghost dv = self.dxcc();
        let ghost m = self.by_dxcc.model();
        let mut worked: usize = 0;
        let mut confirmed: usize = 0;
        let mut slots: usize = 0;
        let mut cslots: usize = 0;
        let mut ch: usize = 0;
        let mut cch: usize = 0;
        let mut i: usize = 0;
        assert(dv.take(0) =~= Seq::<(i32, DxccView)>::empty());
        while i < self.by_dxcc.len()
            invariant
                i <= m.len(),
                m == self.by_dxcc.model(),
                dv == dxcc_views(m),
                worked == count_kept(dv.take(i as int), skip@),
                confirmed == count_confirmed(dv.take(i as int), skip@),
                worked <= i,
                confirmed <= i,
                slots == sat(sum_sizes(dv.take(i as int), skip@, Axis::Slots)),
                cslots == sat(sum_sizes(dv.take(i as int), skip@, Axis::ConfirmedSlots)),
                ch == sat(sum_challenge(dv.take(i as int), skip@, Axis::Bands)),
                cch == sat(sum_challenge(dv.take(i as int), skip@, Axis::ConfirmedBands)),
            decreases m.len() - i,
        {
            assert(dv.take(i + 1).drop_last() =~= dv.take(i as int));
            assert(dv.take(i + 1).last() == (m[i as int].0, m[i as int].1@));
            let k = self.by_dxcc.key_at(i);
            if !skipped(skip, k) {
                let s = self.by_dxcc.value_at(i);
                worked = worked + 1;
                if !s.confirmed_slots.is_empty() {
                    confirmed = confirmed + 1;
                }
                slots = slots.saturating_add(s.slots.len());
                cslots = cslots.saturating_add(s.confirmed_slots.len());
                ch = ch.saturating_add(challenge_in(&s.bands));
                cch = cch.saturating_add(challenge_in(&s.confirmed_bands));
            }
            i = i + 1;
        }
        assert(dv.take(m.len() as int) =~= dv);
        MatrixStats {
            dxcc_worked: worked,
            dxcc_confirmed: confirmed,
            slots_worked: slots,
            slots_confirmed: cslots,
            challenge_worked: ch,
            challenge_confirmed: cch,
        }
    }

    /// Entities outside `skip` whose set `a` holds `key`.
    fn count_with(&self, skip: &std::collections::HashSet<i32>, a: Axis, key: &str) -> (r: usize)
        ensures
            r == count_holding(self.dxcc(), skip@, a, key@),
    {
        let ghost dv = self.dxcc();
        let ghost m = self.by_dxcc.model();
        let mut n: usize = 0;
        let mut i: usize = 0;
        assert(dv.take(0) =~= Seq::<(i32, DxccView)>::empty());
        while i < self.by_dxcc.len()
            invariant
                i <= m.len(),
                m == self.by_dxcc.model(),
                dv == dxcc_views(m),
                n == count_holding(dv.take(i as int), skip@, a, key@),
                n <= i,
            decreases m.len() - i,
        {
            assert(dv.take(i + 1).drop_last() =~= dv.take(i as int));
            assert(dv.take(i + 1).last() == (m[i as int].0, m[i as int].1@));
            let k = self.by_dxcc.key_at(i);
            if !skipped(skip, k) {
                let s = self.by_dxcc.value_at(i);
                let a2 = match a {
                    Axis::Bands => Axis::Bands,
                    Axis::Modes => Axis::Modes,
                    Axis::Slots => Axis::Slots,
                    Axis::ConfirmedBands => Axis::ConfirmedBands,
                    Axis::ConfirmedModes => Axis::ConfirmedModes,
                    Axis::ConfirmedSlots => Axis::ConfirmedSlots,
                };
                assert(a2 == a);
                if axis_set(s, a2).contains(key) {
                    n = n + 1;
                }
            }
            i = i + 1;
        }
        assert(dv.take(m.len() as int) =~= dv);
        n
    }
}

// ---------------------------------------------------------------------------
// DXCC by band and by mode
// ---------------------------------------------------------------------------

/// Entities worked/confirmed for one band or one mode class.
#[derive(Debug, Clone, Default, PartialEq, Eq)]
pub struct SliceCount {
    pub key: String,
    pub worked: usize,
    pub confirmed: usize,
}

/// One mode's row of the band × mode grid.
#[derive(Debug, Clone, Default, PartialEq, Eq)]
pub struct ModeRow {
    /// One of the mode classes.
    pub mode: String,
    /// One cell per selectable band, in band order; empty cells kept.
    pub bands: Vec<SliceCount>,
}

/// Entities per band, per mode class, and per band-mode cell. `bands` and
/// `modes` are not sums of `grid`: an entity worked on 20M in two modes is
/// one entity on 20M but fills two cells.
#[derive(Debug, Clone, Default, PartialEq, Eq)]
pub struct BandModeStats {
    /// In selectable-band order, 160M first.
    pub bands: Vec<SliceCount>,
    /// In mode-class order: CW, PHONE, DATA.
    pub modes: Vec<SliceCount>,
    /// One row per mode class.
    pub grid: Vec<ModeRow>,
}

/// `c` is the row for `label` counting set `wa` (worked) and `ca`
/// (confirmed) holding `key`.
pub open spec fn slice_is(
    c: SliceCount,
    label: Seq<char>,
    s: Seq<(i32, DxccView)>,
    skip: Set<i32>,
    wa: Axis,
    ca: Axis,
    key: Seq<char>,
) -> bool {
    &&& c.key@ == label
    &&& c.worked == count_holding(s, skip, wa, key)
    &&& c.confirmed == count_holding(s, skip, ca, key)
}

pub open spec fn band_mode_spec(s: Seq<(i32, DxccView)>, skip: Set<i32>, r: BandModeStats) -> bool {
    let bands = views(selectable_bands_spec());
    let classes = views(classes_spec());
    &&& r.bands@.len() == bands.len()
    &&& forall|i: int|
        0 <= i < bands.len() ==> slice_is(
            #[trigger] r.bands@[i],
            bands[i],
            s,
            skip,
            Axis::Bands,
            Axis::ConfirmedBands,
            bands[i],
        )
    &&& r.modes@.len() == classes.len()
    &&& forall|i: int|
        0 <= i < classes.len() ==> slice_is(
            #[trigger] r.modes@[i],
            classes[i],
            s,
            skip,
            Axis::Modes,
            Axis::ConfirmedModes,
            classes[i],
        )
    &&& r.grid@.len() == classes.len()
    &&& forall|m: int|
        0 <= m < classes.len() ==> (#[trigger] r.grid@[m]).mode@ == classes[m] && r.grid@[m].bands@.len()
            == bands.len() && forall|b: int|
            0 <= b < bands.len() ==> slice_is(
                #[trigger] r.grid@[m].bands@[b],
                bands[b],
                s,
                skip,
                Axis::Slots,
                Axis::ConfirmedSlots,
                slot_key(bands[b], classes[m]),
            )
}

impl LogMatrix {
    /// Entities worked and confirmed per band, per mode class and per
    /// band-mode cell. Empty rows are kept.
    pub fn by_band_and_mode(&self) -> (r: BandModeStats)
        ensures
            band_mode_spec(self.dxcc(), Set::empty(), r),
    {
        broadcast use vstd::std_specs::hash::group_hash_axioms;

        let none: std::collections::HashSet<i32> = std::collections::HashSet::new();
        assert(none@ =~= Set::<i32>::empty());
        self.by_band_and_mode_excluding(&none)
    }

    /// [`by_band_and_mode`](Self::by_band_and_mode), minus `skip`.
    pub fn by_band_and_mode_excluding(&self, skip: &std::collections::HashSet<i32>) -> (r: BandModeStats)
        ensures
            band_mode_spec(self.dxcc(), skip@, r),
    {
        let bands = selectable_bands();
        let classes = classes();
        let ghost bv = views(selectable_bands_spec());
        let ghost cv = views(classes_spec());
        let mut band_rows: Vec<SliceCount> = Vec::new();
        let mut i: usize = 0;
        while i < bands.len()
            invariant
                i <= bands@.len(),
                bands@ == selectable_bands_spec(),
                bv == views(selectable_bands_spec()),
                band_rows@.len() == i,
                forall|j: int|
                    0 <= j < i ==> slice_is(
                        #[trigger] band_rows@[j],
                        bv[j],
                        self.dxcc(),
                        skip@,
                        Axis::Bands,
                        Axis::ConfirmedBands,
                        bv[j],
                    ),
            decreases bands@.len() - i,
        {
            let b = bands[i];
            assert(bv[i as int] == b@);
            let w = self.count_with(skip, Axis::Bands, b);
            let c = self.count_with(skip, Axis::ConfirmedBands, b);
            band_rows.push(SliceCount { key: b.to_owned(), worked: w, confirmed: c });
            i = i + 1;
        }
        let mut mode_rows: Vec<SliceCount> = Vec::new();
        let mut i: usize = 0;
        while i < classes.len()
            invariant
                i <= classes@.len(),
                classes@ == classes_spec(),
                cv == views(classes_spec()),
                mode_rows@.len() == i,
                forall|j: int|
                    0 <= j < i ==> slice_is(
                        #[trigger] mode_rows@[j],
                        cv[j],
                        self.dxcc(),
                        skip@,
                        Axis::Modes,
                        Axis::ConfirmedModes,
                        cv[j],
                    ),
            decreases classes@.len() - i,
        {
            let m = classes[i];
            assert(cv[i as int] == m@);
            let w = self.count_with(skip, Axis::Modes, m);
            let c = self.count_with(skip, Axis::ConfirmedModes, m);
            mode_rows.push(SliceCount { key: m.to_owned(), worked: w, confirmed: c });
            i = i + 1;
        }
        let mut grid: Vec<ModeRow> = Vec::new();
        let mut mi: usize = 0;
        while mi < classes.len()
            invariant
                mi <= classes@.len(),
                classes@ == classes_spec(),
                bands@ == selectable_bands_spec(),
                cv == views(classes_spec()),
                bv == views(selectable_bands_spec()),
                grid@.len() == mi,
                forall|m: int|
                    0 <= m < mi ==> (#[trigger] grid@[m]).mode@ == cv[m] && grid@[m].bands@.len()
                        == bv.len() && forall|b: int|
                        0 <= b < bv.len() ==> slice_is(
                            #[trigger] grid@[m].bands@[b],
                            bv[b],
                            self.dxcc(),
                            skip@,
                            Axis::Slots,
                            Axis::ConfirmedSlots,
                            slot_key(bv[b], cv[m]),
                        ),
            decreases classes@.len() - mi,
        {
            let m = classes[mi];
            assert(cv[mi as int] == m@);
            let mut cells: Vec<SliceCount> = Vec::new();
            let mut bi: usize = 0;
            while bi < bands.len()
                invariant
                    bi <= bands@.len(),
                    bands@ == selectable_bands_spec(),
                    bv == views(selectable_bands_spec()),
                    cells@.len() == bi,
                    forall|b: int|
                        0 <= b < bi ==> slice_is(
                            #[trigger] cells@[b],
                            bv[b],
                            self.dxcc(),
                            skip@,
                            Axis::Slots,
                            Axis::ConfirmedSlots,
                            slot_key(bv[b], m@),
                        ),
                decreases bands@.len() - bi,
            {
                let b = bands[bi];
                assert(bv[bi as int] == b@);
                let mut sv = chars_of(b);
                sv.push('-');
                let mv = chars_of(m);
                extend_chars(&mut sv, mv.as_slice());
                let slot = string_of(sv.as_slice());
                assert(slot@ == slot_key(b@, m@));
                let w = self.count_with(skip, Axis::Slots, slot.as_str());
                let c = self.count_with(skip, Axis::ConfirmedSlots, slot.as_str());
                cells.push(SliceCount { key: b.to_owned(), worked: w, confirmed: c });
                bi = bi + 1;
            }
            grid.push(ModeRow { mode: m.to_owned(), bands: cells });
            mi = mi + 1;
        }
        BandModeStats { bands: band_rows, modes: mode_rows, grid }
    }
}

// ---------------------------------------------------------------------------
// Award counts
// ---------------------------------------------------------------------------

/// One of an award key's four sets.
#[derive(Clone, Copy)]
pub enum AwardAxis {
    Bands,
    ConfirmedBands,
    Modes,
    ConfirmedModes,
}

pub open spec fn award_axis(v: AwardView, a: AwardAxis) -> Seq<Seq<char>> {
    match a {
        AwardAxis::Bands => v.bands,
        AwardAxis::ConfirmedBands => v.confirmed_bands,
        AwardAxis::Modes => v.modes,
        AwardAxis::ConfirmedModes => v.confirmed_modes,
    }
}

fn award_set(s: &AwardStatus, a: AwardAxis) -> (r: &StrSet)
    ensures
        r.model() == award_axis(s@, a),
{
    match a {
        AwardAxis::Bands => &s.bands,
        AwardAxis::ConfirmedBands => &s.confirmed_bands,
        AwardAxis::Modes => &s.modes,
        AwardAxis::ConfirmedModes => &s.confirmed_modes,
    }
}

/// Keys whose set `a` holds `item`.
pub open spec fn count_award<K>(s: Seq<(K, AwardView)>, a: AwardAxis, item: Seq<char>) -> nat
    decreases s.len(),
{
    if s.len() == 0 {
        0
    } else {
        count_award(s.drop_last(), a, item) + if award_axis(s.last().1, a).contains(item) {
            1nat
        } else {
            0nat
        }
    }
}

/// Keys confirmed on at least one band.
pub open spec fn count_award_confirmed<K>(s: Seq<(K, AwardView)>) -> nat
    decreases s.len(),
{
    if s.len() == 0 {
        0
    } else {
        count_award_confirmed(s.drop_last()) + if s.last().1.confirmed_bands.len() > 0 {
            1nat
        } else {
            0nat
        }
    }
}

/// Whether `v` is confirmed in every mode class.
pub open spec fn all_classes_confirmed(v: AwardView) -> bool {
    forall|i: int| 0 <= i < 3 ==> v.confirmed_modes.contains(#[trigger] views(classes_spec())[i])
}

/// Keys confirmed in all three mode classes (ARRL Triple Play).
pub open spec fn count_triple<K>(s: Seq<(K, AwardView)>) -> nat
    decreases s.len(),
{
    if s.len() == 0 {
        0
    } else {
        count_triple(s.drop_last()) + if all_classes_confirmed(s.last().1) {
            1nat
        } else {
            0nat
        }
    }
}

/// One breakdown row per label — `(label, worked, confirmed)` counted on
/// sets `wa` and `ca` — leaving out labels nothing was worked on unless
/// `keep_empty`.
pub open spec fn award_rows<K>(
    s: Seq<(K, AwardView)>,
    labels: Seq<Seq<char>>,
    wa: AwardAxis,
    ca: AwardAxis,
    keep_empty: bool,
) -> Seq<(Seq<char>, nat, nat)>
    decreases labels.len(),
{
    if labels.len() == 0 {
        Seq::empty()
    } else {
        let prev = award_rows(s, labels.drop_last(), wa, ca, keep_empty);
        let b = labels.last();
        let w = count_award(s, wa, b);
        if keep_empty || w > 0 {
            prev.push((b, w, count_award(s, ca, b)))
        } else {
            prev
        }
    }
}

/// A per-band or per-mode count of award keys.
#[derive(Debug, Clone, PartialEq, Eq)]
pub struct AwardBreakdown {
    pub key: String,
    pub worked: usize,
    pub confirmed: usize,
}

pub open spec fn rows_view(v: Seq<AwardBreakdown>) -> Seq<(Seq<char>, nat, nat)> {
    v.map_values(|r: AwardBreakdown| (r.key@, r.worked as nat, r.confirmed as nat))
}

fn count_award_text(map: &StrMap<AwardStatus>, a: AwardAxis, item: &str) -> (r: usize)
    ensures
        r == count_award(award_views(map.model()), a, item@),
{
    let ghost av = award_views(map.model());
    let mut n: usize = 0;
    let mut i: usize = 0;
    assert(av.take(0) =~= Seq::<(Seq<char>, AwardView)>::empty());
    while i < map.len()
        invariant
            i <= av.len(),
            av == award_views(map.model()),
            n == count_award(av.take(i as int), a, item@),
            n <= i,
        decreases av.len() - i,
    {
        assert(av.take(i + 1).drop_last() =~= av.take(i as int));
        if award_set(map.value_at(i), a).contains(item) {
            n = n + 1;
        }
        i = i + 1;
    }
    assert(av.take(av.len() as int) =~= av);
    n
}

fn count_award_int(map: &IntMap<AwardStatus>, a: AwardAxis, item: &str) -> (r: usize)
    ensures
        r == count_award(award_views(map.model()), a, item@),
{
    let ghost av = award_views(map.model());
    let mut n: usize = 0;
    let mut i: usize = 0;
    assert(av.take(0) =~= Seq::<(i32, AwardView)>::empty());
    while i < map.len()
        invariant
            i <= av.len(),
            av == award_views(map.model()),
            n == count_award(av.take(i as int), a, item@),
            n <= i,
        decreases av.len() - i,
    {
        assert(av.take(i + 1).drop_last() =~= av.take(i as int));
        if award_set(map.value_at(i), a).contains(item) {
            n = n + 1;
        }
        i = i + 1;
    }
    assert(av.take(av.len() as int) =~= av);
    n
}

fn confirmed_text(map: &StrMap<AwardStatus>) -> (r: usize)
    ensures
        r == count_award_confirmed(award_views(map.model())),
{
    let ghost av = award_views(map.model());
    let mut n: usize = 0;
    let mut i: usize = 0;
    assert(av.take(0) =~= Seq::<(Seq<char>, AwardView)>::empty());
    while i < map.len()
        invariant
            i <= av.len(),
            av == award_views(map.model()),
            n == count_award_confirmed(av.take(i as int)),
            n <= i,
        decreases av.len() - i,
    {
        assert(av.take(i + 1).drop_last() =~= av.take(i as int));
        if map.value_at(i).is_confirmed() {
            n = n + 1;
        }
        i = i + 1;
    }
    assert(av.take(av.len() as int) =~= av);
    n
}

fn confirmed_int(map: &IntMap<AwardStatus>) -> (r: usize)
    ensures
        r == count_award_confirmed(award_views(map.model())),
{
    let ghost av = award_views(map.model());
    let mut n: usize = 0;
    let mut i: usize = 0;
    assert(av.take(0) =~= Seq::<(i32, AwardView)>::empty());
    while i < map.len()
        invariant
            i <= av.len(),
            av == award_views(map.model()),
            n == count_award_confirmed(av.take(i as int)),
            n <= i,
        decreases av.len() - i,
    {
        assert(av.take(i + 1).drop_last() =~= av.take(i as int));
        if map.value_at(i).is_confirmed() {
            n = n + 1;
        }
        i = i + 1;
    }
    assert(av.take(av.len() as int) =~= av);
    n
}

fn rows_text(
    map: &StrMap<AwardStatus>,
    labels: &Vec<&'static str>,
    wa: AwardAxis,
    ca: AwardAxis,
    keep_empty: bool,
) -> (r: Vec<AwardBreakdown>)
    ensures
        rows_view(r@) == award_rows(award_views(map.model()), views(labels@), wa, ca, keep_empty),
{
    let ghost lv = views(labels@);
    let mut out: Vec<AwardBreakdown> = Vec::new();
    let mut i: usize = 0;
    assert(lv.take(0) =~= Seq::<Seq<char>>::empty());
    assert(rows_view(out@) =~= Seq::<(Seq<char>, nat, nat)>::empty());
    while i < labels.len()
        invariant
            i <= labels@.len(),
            lv == views(labels@),
            rows_view(out@) == award_rows(award_views(map.model()), lv.take(i as int), wa, ca, keep_empty),
        decreases labels@.len() - i,
    {
        assert(lv.take(i + 1).drop_last() =~= lv.take(i as int));
        assert(lv.take(i + 1).last() == labels@[i as int]@);
        let b = labels[i];
        let w = count_award_text(map, wa, b);
        if keep_empty || w > 0 {
            let c = count_award_text(map, ca, b);
            let ghost before = out@;
            out.push(AwardBreakdown { key: b.to_owned(), worked: w, confirmed: c });
            assert(rows_view(out@) =~= rows_view(before).push((b@, w as nat, c as nat)));
        }
        i = i + 1;
    }
    assert(lv.take(labels@.len() as int) =~= lv);
    out
}

fn rows_int(
    map: &IntMap<AwardStatus>,
    labels: &Vec<&'static str>,
    wa: AwardAxis,
    ca: AwardAxis,
    keep_empty: bool,
) -> (r: Vec<AwardBreakdown>)
    ensures
        rows_view(r@) == award_rows(award_views(map.model()), views(labels@), wa, ca, keep_empty),
{
    let ghost lv = views(labels@);
    let mut out: Vec<AwardBreakdown> = Vec::new();
    let mut i: usize = 0;
    assert(lv.take(0) =~= Seq::<Seq<char>>::empty());
    assert(rows_view(out@) =~= Seq::<(Seq<char>, nat, nat)>::empty());
    while i < labels.len()
        invariant
            i <= labels@.len(),
            lv == views(labels@),
            rows_view(out@) == award_rows(award_views(map.model()), lv.take(i as int), wa, ca, keep_empty),
        decreases labels@.len() - i,
    {
        assert(lv.take(i + 1).drop_last() =~= lv.take(i as int));
        assert(lv.take(i + 1).last() == labels@[i as int]@);
        let b = labels[i];
        let w = count_award_int(map, wa, b);
        if keep_empty || w > 0 {
            let c = count_award_int(map, ca, b);
            let ghost before = out@;
            out.push(AwardBreakdown { key: b.to_owned(), worked: w, confirmed: c });
            assert(rows_view(out@) =~= rows_view(before).push((b@, w as nat, c as nat)));
        }
        i = i + 1;
    }
    assert(lv.take(labels@.len() as int) =~= lv);
    out
}

// ---------------------------------------------------------------------------
// WAS, WAZ and Triple Play worklists
// ---------------------------------------------------------------------------

/// The labels no key of `s` is present for, in label order.
pub open spec fn missing_keys(s: Seq<(Seq<char>, AwardView)>, labels: Seq<Seq<char>>) -> Seq<Seq<char>>
    decreases labels.len(),
{
    if labels.len() == 0 {
        Seq::empty()
    } else {
        let prev = missing_keys(s, labels.drop_last());
        if get(s, labels.last()) is Some {
            prev
        } else {
            prev.push(labels.last())
        }
    }
}

/// Zone `z` is confirmed — on any band when `mode` is `None`, in that
/// mode class otherwise.
pub open spec fn zone_confirmed(s: Seq<(i32, AwardView)>, z: i32, mode: Option<Seq<char>>) -> bool {
    match get(s, z) {
        Some(v) => match mode {
            None => v.confirmed_bands.len() > 0,
            Some(m) => v.confirmed_modes.contains(m),
        },
        None => false,
    }
}

/// Zones 1 to `upto` not confirmed (in `mode`), ascending.
pub open spec fn missing_zones(s: Seq<(i32, AwardView)>, mode: Option<Seq<char>>, upto: int) -> Seq<i32>
    decreases upto,
{
    if upto < 1 {
        Seq::empty()
    } else {
        let prev = missing_zones(s, mode, upto - 1);
        if zone_confirmed(s, upto as i32, mode) {
            prev
        } else {
            prev.push(upto as i32)
        }
    }
}

/// For each mode class, the zones still unconfirmed in it; classes with
/// none left out.
pub open spec fn zone_needs(s: Seq<(i32, AwardView)>, labels: Seq<Seq<char>>) -> Seq<(Seq<char>, Seq<i32>)>
    decreases labels.len(),
{
    if labels.len() == 0 {
        Seq::empty()
    } else {
        let prev = zone_needs(s, labels.drop_last());
        let z = missing_zones(s, Some(labels.last()), 40);
        if z.len() > 0 {
            prev.push((labels.last(), z))
        } else {
            prev
        }
    }
}

/// The zones one mode class still wants.
#[derive(Debug, Clone, PartialEq, Eq)]
pub struct ZoneNeed {
    pub mode: String,
    pub zones: Vec<i32>,
}

pub open spec fn needs_view(v: Seq<ZoneNeed>) -> Seq<(Seq<char>, Seq<i32>)> {
    v.map_values(|n: ZoneNeed| (n.mode@, n.zones@))
}

/// The mode classes `st` is not yet confirmed in, in class order.
pub open spec fn needed_modes(s: Seq<(Seq<char>, AwardView)>, st: Seq<char>, labels: Seq<Seq<char>>) -> Seq<Seq<char>>
    decreases labels.len(),
{
    if labels.len() == 0 {
        Seq::empty()
    } else {
        let prev = needed_modes(s, st, labels.drop_last());
        if get(s, st) matches Some(v) && v.confirmed_modes.contains(labels.last()) {
            prev
        } else {
            prev.push(labels.last())
        }
    }
}

/// The states (in list order) still missing exactly `k` mode classes,
/// each with those classes.
pub open spec fn gaps_sized(s: Seq<(Seq<char>, AwardView)>, states: Seq<Seq<char>>, k: nat) -> Seq<(Seq<char>, Seq<Seq<char>>)>
    decreases states.len(),
{
    if states.len() == 0 {
        Seq::empty()
    } else {
        let prev = gaps_sized(s, states.drop_last(), k);
        let n = needed_modes(s, states.last(), views(classes_spec()));
        if n.len() == k {
            prev.push((states.last(), n))
        } else {
            prev
        }
    }
}

/// Triple Play's worklist: states missing one class first, then two, then
/// all three, each group in state order.
pub open spec fn triple_gaps(s: Seq<(Seq<char>, AwardView)>) -> Seq<(Seq<char>, Seq<Seq<char>>)> {
    let us = views(us_states());
    gaps_sized(s, us, 1) + gaps_sized(s, us, 2) + gaps_sized(s, us, 3)
}

/// Whether state `st` is confirmed in every mode class.
pub open spec fn state_complete(s: Seq<(Seq<char>, AwardView)>, st: Seq<char>) -> bool {
    get(s, st) matches Some(v) && all_classes_confirmed(v)
}

/// How many of `states` are confirmed in every mode class.
pub open spec fn count_complete(s: Seq<(Seq<char>, AwardView)>, states: Seq<Seq<char>>) -> nat
    decreases states.len(),
{
    if states.len() == 0 {
        0
    } else {
        count_complete(s, states.drop_last()) + if state_complete(s, states.last()) {
            1nat
        } else {
            0nat
        }
    }
}

/// A state misses at most every label, and misses none of a non-empty
/// list exactly when it is confirmed in all of them.
proof fn lemma_needed_modes(s: Seq<(Seq<char>, AwardView)>, st: Seq<char>, labels: Seq<Seq<char>>)
    ensures
        needed_modes(s, st, labels).len() <= labels.len(),
        (needed_modes(s, st, labels).len() == 0) == (labels.len() == 0 || (get(s, st) is Some && forall|i: int|
            0 <= i < labels.len() ==> get(s, st).unwrap().confirmed_modes.contains(#[trigger] labels[i]))),
    decreases labels.len(),
{
    if labels.len() > 0 {
        let prev = labels.drop_last();
        lemma_needed_modes(s, st, prev);
        assert forall|i: int| 0 <= i < prev.len() implies #[trigger] prev[i] == labels[i] by {}
        if get(s, st) is Some && forall|i: int|
            0 <= i < labels.len() ==> get(s, st).unwrap().confirmed_modes.contains(#[trigger] labels[i]) {
            assert forall|i: int| 0 <= i < prev.len() implies get(s, st).unwrap().confirmed_modes.contains(
                #[trigger] prev[i],
            ) by {
                assert(prev[i] == labels[i]);
            }
            assert(get(s, st).unwrap().confirmed_modes.contains(labels[labels.len() - 1]));
        }
        if needed_modes(s, st, labels).len() == 0 {
            assert forall|i: int| 0 <= i < labels.len() implies get(s, st).unwrap().confirmed_modes.contains(
                #[trigger] labels[i],
            ) by {
                if i < prev.len() {
                    assert(prev[i] == labels[i]);
                }
            }
        }
    }
}

/// Every state falls into exactly one of: complete, or missing one, two or
/// three classes.
proof fn lemma_gap_groups(s: Seq<(Seq<char>, AwardView)>, states: Seq<Seq<char>>)
    ensures
        gaps_sized(s, states, 1).len() + gaps_sized(s, states, 2).len() + gaps_sized(s, states, 3).len()
            + count_complete(s, states) == states.len(),
    decreases states.len(),
{
    if states.len() > 0 {
        lemma_gap_groups(s, states.drop_last());
        let c = views(classes_spec());
        lemma_needed_modes(s, states.last(), c);
        assert(c.len() == 3);
        let n = needed_modes(s, states.last(), c);
        if let Some(v) = get(s, states.last()) {
            if all_classes_confirmed(v) {
                assert forall|i: int| 0 <= i < c.len() implies v.confirmed_modes.contains(#[trigger] c[i]) by {}
            }
            if n.len() == 0 {
                assert forall|i: int| 0 <= i < 3 implies v.confirmed_modes.contains(#[trigger] c[i]) by {}
            }
        }
    }
}

/// No entry of an empty table is complete.
proof fn lemma_count_complete_empty(s: Seq<(Seq<char>, AwardView)>, states: Seq<Seq<char>>)
    requires
        s.len() == 0,
    ensures
        count_complete(s, states) == 0,
    decreases states.len(),
{
    if states.len() > 0 {
        lemma_count_complete_empty(s, states.drop_last());
    }
}

/// Appending a new key `k` changes only what `k` itself looks up.
proof fn lemma_get_after_push(s: Seq<(Seq<char>, AwardView)>, k: Seq<char>, v: AwardView, st: Seq<char>)
    requires
        distinct_keys(s.push((k, v))),
    ensures
        get(s.push((k, v)), st) == if st == k {
            Some(v)
        } else {
            get(s, st)
        },
        get(s, k) is None,
{
    let t = s.push((k, v));
    crate::assoc::lemma_get_at(t, s.len() as int);
    assert forall|j: int| 0 <= j < s.len() implies s[j].0 != k by {
        assert(t[j] == s[j]);
    }
    crate::assoc::lemma_key_index(s, k, s.len() as int);
    if st != k {
        crate::assoc::lemma_key_index_props(s, st);
        let a = key_index(s, st);
        assert forall|j: int| 0 <= j < a implies t[j].0 != st by {
            assert(t[j] == s[j]);
        }
        if a < s.len() {
            assert(t[a] == s[a]);
            crate::assoc::lemma_key_index(t, st, a);
        } else {
            crate::assoc::lemma_key_index(t, st, t.len() as int);
        }
    }
}

/// Appending a new key `k` adds one complete state exactly when `k` is
/// listed and its entry is complete.
proof fn lemma_count_complete_push(
    s: Seq<(Seq<char>, AwardView)>,
    k: Seq<char>,
    v: AwardView,
    states: Seq<Seq<char>>,
)
    requires
        distinct_keys(s.push((k, v))),
        forall|i: int, j: int| 0 <= i < j < states.len() ==> #[trigger] states[i] != #[trigger] states[j],
    ensures
        count_complete(s.push((k, v)), states) == count_complete(s, states) + if states.contains(k)
            && all_classes_confirmed(v) {
            1nat
        } else {
            0nat
        },
    decreases states.len(),
{
    if states.len() > 0 {
        let prev = states.drop_last();
        let x = states.last();
        assert forall|i: int, j: int| 0 <= i < j < prev.len() implies #[trigger] prev[i] != #[trigger] prev[j] by {
            assert(prev[i] == states[i] && prev[j] == states[j]);
        }
        lemma_count_complete_push(s, k, v, prev);
        lemma_get_after_push(s, k, v, x);
        lemma_get_after_push(s, k, v, k);
        if x == k {
            if prev.contains(k) {
                let i = choose|i: int| 0 <= i < prev.len() && prev[i] == k;
                assert(states[i] == prev[i]);
                assert(states[i] == states[states.len() - 1]);
            }
            assert(states.contains(k)) by {
                assert(states[states.len() - 1] == k);
            }
        } else {
            if prev.contains(k) {
                let i = choose|i: int| 0 <= i < prev.len() && prev[i] == k;
                assert(states[i] == prev[i]);
            }
            if states.contains(k) {
                let i = choose|i: int| 0 <= i < states.len() && states[i] == k;
                assert(i < prev.len());
                assert(prev[i] == states[i]);
            }
        }
    }
}

/// Counting complete entries of a table whose keys are distinct listed
/// states gives the same number as counting complete states of the list.
proof fn lemma_complete_states(s: Seq<(Seq<char>, AwardView)>, states: Seq<Seq<char>>)
    requires
        distinct_keys(s),
        forall|i: int| 0 <= i < s.len() ==> states.contains(#[trigger] s[i].0),
        forall|i: int, j: int| 0 <= i < j < states.len() ==> #[trigger] states[i] != #[trigger] states[j],
    ensures
        count_complete(s, states) == count_triple(s),
    decreases s.len(),
{
    if s.len() == 0 {
        lemma_count_complete_empty(s, states);
    } else {
        let prev = s.drop_last();
        let (k, v) = s.last();
        assert(prev.push((k, v)) =~= s);
        assert forall|i: int| 0 <= i < prev.len() implies states.contains(#[trigger] prev[i].0) by {
            assert(prev[i] == s[i]);
        }
        lemma_complete_states(prev, states);
        lemma_count_complete_push(prev, k, v, states);
        assert(states.contains(s[s.len() - 1].0));
    }
}

/// Triple Play accounts for every state: when each key of the state table
/// is one of the fifty states, the states confirmed in all three classes
/// and the states still listed as missing some class add up to fifty.
pub proof fn law_triple_play_covers_the_fifty_states(s: Seq<(Seq<char>, AwardView)>)
    requires
        distinct_keys(s),
        forall|i: int| 0 <= i < s.len() ==> views(us_states()).contains(#[trigger] s[i].0),
    ensures
        count_triple(s) + triple_gaps(s).len() == 50,
{
    crate::awards::lemma_us_states_distinct();
    let us = views(us_states());
    lemma_gap_groups(s, us);
    lemma_complete_states(s, us);
}

/// One state that Triple Play still wants, and in which modes.
#[derive(Debug, Clone, PartialEq, Eq)]
pub struct TriplePlayGap {
    pub state: String,
    pub needed: Vec<String>,
}

pub open spec fn texts_of(v: Seq<String>) -> Seq<Seq<char>> {
    v.map_values(|s: String| s@)
}

pub open spec fn gaps_view(v: Seq<TriplePlayGap>) -> Seq<(Seq<char>, Seq<Seq<char>>)> {
    v.map_values(|g: TriplePlayGap| (g.state@, texts_of(g.needed@)))
}

fn all_confirmed(s: &AwardStatus) -> (r: bool)
    ensures
        r == all_classes_confirmed(s@),
{
    let cls = classes();
    let ghost cv = views(classes_spec());
    let mut i: usize = 0;
    while i < cls.len()
        invariant
            i <= 3,
            cls@ == classes_spec(),
            cv == views(classes_spec()),
            forall|j: int| 0 <= j < i ==> s@.confirmed_modes.contains(#[trigger] cv[j]),
        decreases 3 - i,
    {
        assert(cv[i as int] == cls@[i as int]@);
        if !s.confirmed_modes.contains(cls[i]) {
            return false;
        }
        i = i + 1;
    }
    true
}

fn needed_for(map: &StrMap<AwardStatus>, st: &str) -> (r: Vec<String>)
    ensures
        texts_of(r@) == needed_modes(award_views(map.model()), st@, views(classes_spec())),
{
    proof {
        lemma_key_index_views(map.model(), award_views(map.model()), st@);
    }
    let k = chars_of(st);
    let have = map.get(k.as_slice());
    let cls = classes();
    let ghost cv = views(classes_spec());
    let mut out: Vec<String> = Vec::new();
    let mut i: usize = 0;
    assert(cv.take(0) =~= Seq::<Seq<char>>::empty());
    assert(texts_of(out@) =~= Seq::<Seq<char>>::empty());
    while i < cls.len()
        invariant
            i <= 3,
            cls@ == classes_spec(),
            cv == views(classes_spec()),
            have == (match get(map.model(), st@) {
                Some(v) => Some(&v),
                None => None::<&AwardStatus>,
            }),
            get(award_views(map.model()), st@) == (match get(map.model(), st@) {
                Some(v) => Some(v@),
                None => None,
            }),
            texts_of(out@) == needed_modes(award_views(map.model()), st@, cv.take(i as int)),
        decreases 3 - i,
    {
        assert(cv.take(i + 1).drop_last() =~= cv.take(i as int));
        assert(cv.take(i + 1).last() == cls@[i as int]@);
        let m = cls[i];
        let got = match have {
            Some(s) => s.confirmed_modes.contains(m),
            None => false,
        };
        if !got {
            let ghost before = out@;
            out.push(m.to_owned());
            assert(texts_of(out@) =~= texts_of(before).push(m@));
        }
        i = i + 1;
    }
    assert(cv.take(3) =~= cv);
    out
}

fn gaps_of_size(map: &StrMap<AwardStatus>, states: &Vec<&'static str>, k: usize, out: &mut Vec<TriplePlayGap>)
    ensures
        gaps_view(final(out)@) == gaps_view(old(out)@) + gaps_sized(award_views(map.model()), views(states@), k as nat),
{
    let ghost sv = views(states@);
    let ghost start = gaps_view(out@);
    let mut i: usize = 0;
    assert(sv.take(0) =~= Seq::<Seq<char>>::empty());
    assert(start + gaps_sized(award_views(map.model()), sv.take(0), k as nat) =~= start);
    while i < states.len()
        invariant
            i <= states@.len(),
            sv == views(states@),
            gaps_view(out@) == start + gaps_sized(award_views(map.model()), sv.take(i as int), k as nat),
        decreases states@.len() - i,
    {
        assert(sv.take(i + 1).drop_last() =~= sv.take(i as int));
        assert(sv.take(i + 1).last() == states@[i as int]@);
        let st = states[i];
        let needed = needed_for(map, st);
        if needed.len() == k {
            let ghost before = out@;
            let ghost nv = texts_of(needed@);
            out.push(TriplePlayGap { state: st.to_owned(), needed });
            assert(gaps_view(out@) =~= gaps_view(before).push((st@, nv)));
        }
        i = i + 1;
    }
    assert(sv.take(states@.len() as int) =~= sv);
}

fn missing_zone_list(map: &IntMap<AwardStatus>, mode: Option<&str>) -> (r: Vec<i32>)
    ensures
        r@ == missing_zones(award_views(map.model()), opt_view(mode), 40),
{
    let ghost av = award_views(map.model());
    let mut out: Vec<i32> = Vec::new();
    let mut z: i32 = 1;
    while z <= 40
        invariant
            1 <= z <= 41,
            av == award_views(map.model()),
            out@ == missing_zones(av, opt_view(mode), z - 1),
        decreases 41 - z,
    {
        proof {
            lemma_key_index_views(map.model(), av, z);
        }
        let done = match map.get(z) {
            Some(s) => match mode {
                None => s.is_confirmed(),
                Some(m) => s.confirmed_modes.contains(m),
            },
            None => false,
        };
        if !done {
            out.push(z);
        }
        z = z + 1;
    }
    out
}

fn missing_state_list(map: &StrMap<AwardStatus>) -> (r: Vec<String>)
    ensures
        texts_of(r@) == missing_keys(award_views(map.model()), views(us_states())),
{
    let states = crate::awards::us_state_table();
    let ghost sv = views(us_states());
    let ghost av = award_views(map.model());
    let mut out: Vec<String> = Vec::new();
    let mut i: usize = 0;
    assert(sv.take(0) =~= Seq::<Seq<char>>::empty());
    assert(texts_of(out@) =~= Seq::<Seq<char>>::empty());
    while i < states.len()
        invariant
            i <= states@.len(),
            states@ == us_states(),
            sv == views(us_states()),
            av == award_views(map.model()),
            texts_of(out@) == missing_keys(av, sv.take(i as int)),
        decreases states@.len() - i,
    {
        assert(sv.take(i + 1).drop_last() =~= sv.take(i as int));
        assert(sv.take(i + 1).last() == states@[i as int]@);
        let st = states[i];
        proof {
            lemma_key_index_views(map.model(), av, st@);
        }
        let k = chars_of(st);
        if !map.contains(k.as_slice()) {
            let ghost before = out@;
            out.push(st.to_owned());
            assert(texts_of(out@) =~= texts_of(before).push(st@));
        }
        i = i + 1;
    }
    assert(sv.take(states@.len() as int) =~= sv);
    out
}

impl LogMatrix {
    /// States confirmed in all three mode classes (ARRL Triple Play).
    pub fn triple_play_count(&self) -> (r: usize)
        ensures
            r == count_triple(self.states()),
    {
        let ghost av = self.states();
        let mut n: usize = 0;
        let mut i: usize = 0;
        assert(av.take(0) =~= Seq::<(Seq<char>, AwardView)>::empty());
        while i < self.by_state.len()
            invariant
                i <= av.len(),
                av == award_views(self.by_state.model()),
                n == count_triple(av.take(i as int)),
                n <= i,
            decreases av.len() - i,
        {
            assert(av.take(i + 1).drop_last() =~= av.take(i as int));
            if all_confirmed(self.by_state.value_at(i)) {
                n = n + 1;
            }
            i = i + 1;
        }
        assert(av.take(av.len() as int) =~= av);
        n
    }

    /// What Triple Play still needs, as (state, classes still missing):
    /// fewest missing first, then by state.
    pub fn triple_play_missing(&self) -> (r: Vec<TriplePlayGap>)
        ensures
            gaps_view(r@) == triple_gaps(self.states()),
    {
        let states = crate::awards::us_state_table();
        let mut out: Vec<TriplePlayGap> = Vec::new();
        assert(gaps_view(out@) =~= Seq::<(Seq<char>, Seq<Seq<char>>)>::empty());
        gaps_of_size(&self.by_state, &states, 1, &mut out);
        gaps_of_size(&self.by_state, &states, 2, &mut out);
        gaps_of_size(&self.by_state, &states, 3, &mut out);
        let ghost s = self.states();
        let ghost us = views(us_states());
        assert(gaps_view(out@) =~= triple_gaps(self.states()));
        out
    }
}

// ---------------------------------------------------------------------------
// DX Marathon and the award totals
// ---------------------------------------------------------------------------

/// One year's DX Marathon score.
#[derive(Debug, Clone, PartialEq, Eq)]
pub struct MarathonScore {
    pub year: i32,
    pub entities: usize,
    pub zones: usize,
    pub score: usize,
}

/// `r` lists every Marathon year of `s` once, newest first, with its
/// counts.
pub open spec fn marathon_spec(s: Seq<(i32, (Seq<i32>, Seq<i32>))>, r: Seq<MarathonScore>) -> bool {
    &&& r.len() == s.len()
    &&& forall|i: int, j: int| 0 <= i < j < r.len() ==> #[trigger] r[i].year > #[trigger] r[j].year
    &&& forall|i: int|
        0 <= i < r.len() ==> (get(s, #[trigger] r[i].year) matches Some(v) && r[i].entities == v.0.len()
            && r[i].zones == v.1.len() && r[i].score == sat(v.0.len() + v.1.len()))
}

/// One VUCC band's grid counts.
#[derive(Debug, Clone, PartialEq, Eq)]
pub struct VuccBandCount {
    pub band: String,
    pub worked: usize,
    pub confirmed: usize,
}

pub open spec fn vucc_view(v: Seq<VuccBandCount>) -> Seq<(Seq<char>, nat, nat)> {
    v.map_values(|c: VuccBandCount| (c.band@, c.worked as nat, c.confirmed as nat))
}

/// Totals for the non-DXCC awards.
#[derive(Debug, Clone, PartialEq, Eq)]
pub struct AwardStats {
    /// Per VUCC band, bands with nothing worked omitted.
    pub vucc: Vec<VuccBandCount>,
    pub was_worked: usize,
    pub was_confirmed: usize,
    /// States never worked, in state order (alphabetical).
    pub was_missing: Vec<String>,
    /// WAS per band (empty bands omitted) and per mode class.
    pub was_by_band: Vec<AwardBreakdown>,
    pub was_by_mode: Vec<AwardBreakdown>,
    /// States confirmed in all three modes, and the worklist for the rest.
    pub triple_play: usize,
    pub triple_play_missing: Vec<TriplePlayGap>,
    pub iota_worked: usize,
    pub iota_confirmed: usize,
    /// WAZ: zones worked and confirmed, zones not yet confirmed, per mode.
    pub waz_worked: usize,
    pub waz_confirmed: usize,
    pub waz_missing: Vec<i32>,
    pub waz_by_mode: Vec<AwardBreakdown>,
    /// Which zones each mode class still wants, confirmed-wise.
    pub waz_needed_by_mode: Vec<ZoneNeed>,
    pub waz_by_band: Vec<AwardBreakdown>,
    /// DX Marathon, newest year first.
    pub marathon: Vec<MarathonScore>,
}

impl LogMatrix {
    /// Every year the log has Marathon points in, newest first.
    pub fn marathon_years(&self) -> (r: Vec<MarathonScore>)
        requires
            self.wf(),
        ensures
            marathon_spec(self.years(), r@),
    {
        let ghost m = self.by_year.model();
        let ghost yv = self.years();
        let mut out: Vec<MarathonScore> = Vec::new();
        let mut i: usize = 0;
        while i < self.by_year.len()
            invariant
                i <= m.len(),
                m == self.by_year.model(),
                yv == year_views(m),
                crate::assoc::distinct_keys(m),
                out@.len() == i,
                forall|a: int, b: int| 0 <= a < b < out@.len() ==> #[trigger] out@[a].year > #[trigger] out@[b].year,
                forall|q: int|
                    0 <= q < out@.len() ==> exists|j: int| 0 <= j < i && #[trigger] m[j].0 == (#[trigger] out@[q]).year,
                forall|q: int|
                    0 <= q < out@.len() ==> (get(yv, #[trigger] out@[q].year) matches Some(v)
                        && out@[q].entities == v.0.len() && out@[q].zones == v.1.len()
                        && out@[q].score == sat(v.0.len() + v.1.len())),
            decreases m.len() - i,
        {
            let y = self.by_year.key_at(i);
            let my = self.by_year.value_at(i);
            proof {
                crate::assoc::lemma_get_at(m, i as int);
                lemma_key_index_views(m, yv, y);
                assert(yv[i as int] == (y, (my.entities.model(), my.zones.model())));
                assert forall|q: int| 0 <= q < out@.len() implies out@[q].year != y by {
                    let j = choose|j: int| 0 <= j < i && m[j].0 == out@[q].year;
                    assert(m[j].0 != m[i as int].0);
                }
            }
            let item = MarathonScore {
                year: y,
                entities: my.entities.len(),
                zones: my.zones.len(),
                score: my.score(),
            };
            let mut p: usize = 0;
            while p < out.len() && out[p].year > y
                invariant
                    p <= out@.len(),
                    forall|q: int| 0 <= q < p ==> out@[q].year > y,
                decreases out@.len() - p,
            {
                p = p + 1;
            }
            let ghost before = out@;
            out.insert(p, item);
            proof {
                assert(p < before.len() ==> before[p as int].year < y);
                assert forall|a: int, b: int| 0 <= a < b < out@.len() implies #[trigger] out@[a].year
                    > #[trigger] out@[b].year by {
                    if b < p {
                        assert(out@[a] == before[a] && out@[b] == before[b]);
                    } else if b == p {
                        assert(out@[a] == before[a]);
                    } else if a < p {
                        assert(out@[a] == before[a] && out@[b] == before[b - 1]);
                    } else if a == p {
                        assert(out@[b] == before[b - 1]);
                        if b - 1 > p {
                            assert(before[p as int].year > before[b - 1].year);
                        }
                    } else {
                        assert(out@[a] == before[a - 1] && out@[b] == before[b - 1]);
                    }
                }
                assert forall|q: int| 0 <= q < out@.len() implies exists|j: int|
                    0 <= j < i + 1 && #[trigger] m[j].0 == (#[trigger] out@[q]).year by {
                    if q < p {
                        assert(out@[q] == before[q]);
                        let j = choose|j: int| 0 <= j < i && m[j].0 == before[q].year;
                        assert(m[j].0 == out@[q].year);
                    } else if q == p {
                        assert(m[i as int].0 == out@[q].year);
                    } else {
                        assert(out@[q] == before[q - 1]);
                        let j = choose|j: int| 0 <= j < i && m[j].0 == before[q - 1].year;
                        assert(m[j].0 == out@[q].year);
                    }
                }
                assert forall|q: int| 0 <= q < out@.len() implies (get(yv, #[trigger] out@[q].year) matches Some(v)
                    && out@[q].entities == v.0.len() && out@[q].zones == v.1.len()
                    && out@[q].score == sat(v.0.len() + v.1.len())) by {
                    if q < p {
                        assert(out@[q] == before[q]);
                    } else if q > p {
                        assert(out@[q] == before[q - 1]);
                    }
                }
            }
            i = i + 1;
        }
        out
    }

    /// Totals for the award axes beyond DXCC.
    pub fn award_stats(&self) -> (r: AwardStats)
        requires
            self.wf(),
        ensures
            vucc_view(r.vucc@) == award_rows(
                self.grids(),
                views(vucc_bands_spec()),
                AwardAxis::Bands,
                AwardAxis::ConfirmedBands,
                false,
            ),
            r.was_worked == self.states().len(),
            r.was_confirmed == count_award_confirmed(self.states()),
            texts_of(r.was_missing@) == missing_keys(self.states(), views(us_states())),
            rows_view(r.was_by_band@) == award_rows(
                self.states(),
                views(selectable_bands_spec()),
                AwardAxis::Bands,
                AwardAxis::ConfirmedBands,
                false,
            ),
            rows_view(r.was_by_mode@) == award_rows(
                self.states(),
                views(classes_spec()),
                AwardAxis::Modes,
                AwardAxis::ConfirmedModes,
                true,
            ),
            r.triple_play == count_triple(self.states()),
            gaps_view(r.triple_play_missing@) == triple_gaps(self.states()),
            r.iota_worked == self.islands().len(),
            r.iota_confirmed == count_award_confirmed(self.islands()),
            r.waz_worked == self.zones().len(),
            r.waz_confirmed == count_award_confirmed(self.zones()),
            r.waz_missing@ == missing_zones(self.zones(), None, 40),
            rows_view(r.waz_by_mode@) == award_rows(
                self.zones(),
                views(classes_spec()),
                AwardAxis::Modes,
                AwardAxis::ConfirmedModes,
                true,
            ),
            needs_view(r.waz_needed_by_mode@) == zone_needs(self.zones(), views(classes_spec())),
            rows_view(r.waz_by_band@) == award_rows(
                self.zones(),
                views(selectable_bands_spec()),
                AwardAxis::Bands,
                AwardAxis::ConfirmedBands,
                false,
            ),
            marathon_spec(self.years(), r.marathon@),
    {
        let vucc_labels = crate::bands::vucc_bands();
        let sel = selectable_bands();
        let cls = classes();
        let vrows = rows_text(&self.by_grid, &vucc_labels, AwardAxis::Bands, AwardAxis::ConfirmedBands, false);
        let mut vucc: Vec<VuccBandCount> = Vec::new();
        let mut i: usize = 0;
        while i < vrows.len()
            invariant
                i <= vrows@.len(),
                vucc_view(vucc@) == rows_view(vrows@.take(i as int)),
            decreases vrows@.len() - i,
        {
            let ghost before = vucc@;
            let row = &vrows[i];
            vucc.push(VuccBandCount { band: row.key.clone(), worked: row.worked, confirmed: row.confirmed });
            assert(vucc_view(vucc@) =~= vucc_view(before).push((row.key@, row.worked as nat, row.confirmed as nat)));
            assert(rows_view(vrows@.take(i + 1)) =~= rows_view(vrows@.take(i as int)).push((row.key@, row.worked as nat, row.confirmed as nat)));
            i = i + 1;
        }
        assert(vrows@.take(vrows@.len() as int) =~= vrows@);
        let mut needs: Vec<ZoneNeed> = Vec::new();
        let ghost cv = views(classes_spec());
        let mut c: usize = 0;
        assert(cv.take(0) =~= Seq::<Seq<char>>::empty());
        assert(needs_view(needs@) =~= Seq::<(Seq<char>, Seq<i32>)>::empty());
        while c < cls.len()
            invariant
                c <= 3,
                cls@ == classes_spec(),
                cv == views(classes_spec()),
                needs_view(needs@) == zone_needs(self.zones(), cv.take(c as int)),
            decreases 3 - c,
        {
            assert(cv.take(c + 1).drop_last() =~= cv.take(c as int));
            assert(cv.take(c + 1).last() == cls@[c as int]@);
            let m = cls[c];
            let zones = missing_zone_list(&self.by_zone, Some(m));
            if zones.len() > 0 {
                let ghost before = needs@;
                let ghost zv = zones@;
                needs.push(ZoneNeed { mode: m.to_owned(), zones });
                assert(needs_view(needs@) =~= needs_view(before).push((m@, zv)));
            }
            c = c + 1;
        }
        assert(cv.take(3) =~= cv);
        AwardStats {
            vucc,
            was_worked: self.by_state.len(),
            was_confirmed: confirmed_text(&self.by_state),
            was_missing: missing_state_list(&self.by_state),
            was_by_band: rows_text(&self.by_state, &sel, AwardAxis::Bands, AwardAxis::ConfirmedBands, false),
            was_by_mode: rows_text(&self.by_state, &cls, AwardAxis::Modes, AwardAxis::ConfirmedModes, true),
            triple_play: self.triple_play_count(),
            triple_play_missing: self.triple_play_missing(),
            iota_worked: self.by_iota.len(),
            iota_confirmed: confirmed_text(&self.by_iota),
            waz_worked: self.by_zone.len(),
            waz_confirmed: confirmed_int(&self.by_zone),
            waz_missing: missing_zone_list(&self.by_zone, None),
            waz_by_mode: rows_int(&self.by_zone, &cls, AwardAxis::Modes, AwardAxis::ConfirmedModes, true),
            waz_needed_by_mode: needs,
            waz_by_band: rows_int(&self.by_zone, &sel, AwardAxis::Bands, AwardAxis::ConfirmedBands, false),
            marathon: self.marathon_years(),
        }
    }
}

// ---------------------------------------------------------------------------
// Building from a log
// ---------------------------------------------------------------------------

/// Everything a matrix holds, as sequences.
pub struct MatrixView {
    pub dxcc: Seq<(i32, DxccView)>,
    pub calls: Seq<Seq<char>>,
    pub grids: Seq<(Seq<char>, AwardView)>,
    pub states: Seq<(Seq<char>, AwardView)>,
    pub islands: Seq<(Seq<char>, AwardView)>,
    pub zones: Seq<(i32, AwardView)>,
    pub years: Seq<(i32, (Seq<i32>, Seq<i32>))>,
}

impl LogMatrix {
    pub open spec fn mv(&self) -> MatrixView {
        MatrixView {
            dxcc: self.dxcc(),
            calls: self.calls(),
            grids: self.grids(),
            states: self.states(),
            islands: self.islands(),
            zones: self.zones(),
            years: self.years(),
        }
    }
}

pub open spec fn empty_matrix() -> MatrixView {
    MatrixView {
        dxcc: Seq::empty(),
        calls: Seq::empty(),
        grids: Seq::empty(),
        states: Seq::empty(),
        islands: Seq::empty(),
        zones: Seq::empty(),
        years: Seq::empty(),
    }
}

/// [`LogMatrix::record`] on the view.
pub open spec fn mv_record(
    v: MatrixView,
    dxcc: i32,
    band: Seq<char>,
    mode: Seq<char>,
    call: Seq<char>,
    confirmed: bool,
) -> MatrixView {
    MatrixView {
        dxcc: upsert(v.dxcc, dxcc, dxcc_recorded(prior(v.dxcc, dxcc, empty_dxcc()), band, mode, confirmed)),
        calls: add_new(v.calls, unicode_lower(call)),
        grids: v.grids,
        states: v.states,
        islands: v.islands,
        zones: v.zones,
        years: v.years,
    }
}

/// Whether [`LogMatrix::record_grid`] records anything.
pub open spec fn grid_ok(locator: Seq<char>, band: Seq<char>) -> bool {
    crate::grid::grid4_spec(locator) is Some && views(vucc_bands_spec()).contains(band)
}

pub open spec fn mv_grid(
    v: MatrixView,
    locator: Seq<char>,
    band: Seq<char>,
    mode: Option<Seq<char>>,
    confirmed: bool,
) -> MatrixView {
    if grid_ok(locator, band) {
        let g = crate::grid::grid4_spec(locator)->0;
        MatrixView {
            grids: upsert(v.grids, g, award_recorded(prior(v.grids, g, empty_award()), band, mode, confirmed)),
            ..v
        }
    } else {
        v
    }
}

pub open spec fn mv_state(
    v: MatrixView,
    raw: Seq<char>,
    band: Seq<char>,
    mode: Option<Seq<char>>,
    confirmed: bool,
) -> MatrixView {
    if views(us_states()).contains(state_code(raw)) {
        let k = state_code(raw);
        MatrixView {
            states: upsert(v.states, k, award_recorded(prior(v.states, k, empty_award()), band, mode, confirmed)),
            ..v
        }
    } else {
        v
    }
}

pub open spec fn mv_iota(
    v: MatrixView,
    raw: Seq<char>,
    band: Seq<char>,
    mode: Option<Seq<char>>,
    confirmed: bool,
) -> MatrixView {
    if iota_spec(raw) is Some {
        let k = iota_spec(raw)->0;
        MatrixView {
            islands: upsert(v.islands, k, award_recorded(prior(v.islands, k, empty_award()), band, mode, confirmed)),
            ..v
        }
    } else {
        v
    }
}

pub open spec fn mv_zone(v: MatrixView, zone: i32, band: Seq<char>, mode: Option<Seq<char>>, confirmed: bool) -> MatrixView {
    if 1 <= zone <= 40 {
        MatrixView {
            zones: upsert(v.zones, zone, award_recorded(prior(v.zones, zone, empty_award()), band, mode, confirmed)),
            ..v
        }
    } else {
        v
    }
}

pub open spec fn mv_marathon(v: MatrixView, year: i32, dxcc: Option<i32>, zone: Option<i32>) -> MatrixView {
    if dxcc is None && zone is None {
        v
    } else {
        MatrixView {
            years: upsert(
                v.years,
                year,
                year_recorded(prior(v.years, year, (Seq::<i32>::empty(), Seq::<i32>::empty())), dxcc, zone),
            ),
            ..v
        }
    }
}

/// Why ClubLog gives a contact no DXCC credit.
#[derive(Debug, Clone, Copy, PartialEq, Eq)]
pub enum UncreditedReason {
    /// On ClubLog's invalid-operations list for the QSO's date.
    InvalidOperation,
    /// A whitelisted entity, and this callsign is not one of the operations
    /// ClubLog accepts for it.
    NotWhitelisted,
}

pub open spec fn reason_text(r: UncreditedReason) -> Seq<char> {
    match r {
        UncreditedReason::InvalidOperation => "invalid operation"@,
        UncreditedReason::NotWhitelisted => "not on the entity's whitelist"@,
    }
}

impl UncreditedReason {
    pub fn as_str(self) -> (r: &'static str)
        ensures
            r@ == reason_text(self),
    {
        match self {
            UncreditedReason::InvalidOperation => "invalid operation",
            UncreditedReason::NotWhitelisted => "not on the entity's whitelist",
        }
    }
}

/// One contact that is in the log and scores nothing. Fields are the raw
/// ADIF values (call, band and mode uppercased as read).
#[derive(Debug, Clone, PartialEq, Eq)]
pub struct UncreditedContact {
    pub call: String,
    /// `YYYYMMDD` as ADIF wrote it; empty when the record carried no date.
    pub qso_date: String,
    /// `HHMMSS` or `HHMM` as ADIF wrote it; empty when absent.
    pub time_on: String,
    pub band: String,
    pub mode: String,
    /// The entity it would have counted for.
    pub dxcc: Option<i32>,
    pub reason: UncreditedReason,
}

/// An uncredited contact as values.
pub struct UncreditedView {
    pub call: Seq<char>,
    pub qso_date: Seq<char>,
    pub time_on: Seq<char>,
    pub band: Seq<char>,
    pub mode: Seq<char>,
    pub dxcc: Option<i32>,
    pub reason: UncreditedReason,
}

pub open spec fn uncredited_view(c: UncreditedContact) -> UncreditedView {
    UncreditedView {
        call: c.call@,
        qso_date: c.qso_date@,
        time_on: c.time_on@,
        band: c.band@,
        mode: c.mode@,
        dxcc: c.dxcc,
        reason: c.reason,
    }
}

pub open spec fn uncredited_views(v: Seq<UncreditedContact>) -> Seq<UncreditedView> {
    v.map_values(|c: UncreditedContact| uncredited_view(c))
}

/// The one greppable line for an uncredited contact: call, date and time
/// (or `(no date)`), band, mode, the entity, and the ruling.
pub open spec fn uncredited_line(c: UncreditedView) -> Seq<char> {
    c.call + (if c.qso_date.len() > 0 {
        " "@ + c.qso_date + (if c.time_on.len() > 0 {
            " "@ + c.time_on + "Z"@
        } else {
            Seq::empty()
        })
    } else {
        " (no date)"@
    }) + " "@ + c.band + " "@ + c.mode + (match c.dxcc {
        Some(d) => " DXCC "@ + crate::text::signed_decimal(d as int),
        None => Seq::empty(),
    }) + " \u{2014} "@ + reason_text(c.reason) + ", no credit"@
}

impl UncreditedContact {
    /// One greppable line: call, when, where, and the ruling.
    pub fn to_line(&self) -> (r: String)
        ensures
            r@ == uncredited_line(uncredited_view(*self)),
    {
        let mut out: Vec<char> = chars_of(self.call.as_str());
        if !self.qso_date.as_str().is_empty() {
            out.push(' ');
            extend_chars(&mut out, chars_of(self.qso_date.as_str()).as_slice());
            if !self.time_on.as_str().is_empty() {
                out.push(' ');
                extend_chars(&mut out, chars_of(self.time_on.as_str()).as_slice());
                out.push('Z');
            }
        } else {
            extend_chars(&mut out, chars_of(" (no date)").as_slice());
        }
        out.push(' ');
        extend_chars(&mut out, chars_of(self.band.as_str()).as_slice());
        out.push(' ');
        extend_chars(&mut out, chars_of(self.mode.as_str()).as_slice());
        if let Some(d) = self.dxcc {
            extend_chars(&mut out, chars_of(" DXCC ").as_slice());
            crate::text::push_signed(&mut out, d as i64);
        }
        extend_chars(&mut out, chars_of(" \u{2014} ").as_slice());
        extend_chars(&mut out, chars_of(self.reason.as_str()).as_slice());
        extend_chars(&mut out, chars_of(", no credit").as_slice());
        proof {
            reveal_strlit(" ");
            reveal_strlit("Z");
        }
        assert(out@ =~= uncredited_line(uncredited_view(*self)));
        string_of(out.as_slice())
    }
}

/// The uppercased value of field `k` (present or not).
pub open spec fn up_field(m: Map<Seq<char>, Seq<char>>, k: Seq<char>) -> Seq<char> {
    unicode_upper(m[k])
}

/// The raw value of field `k`, empty when absent.
pub open spec fn raw_or_empty(m: Map<Seq<char>, Seq<char>>, k: Seq<char>) -> Seq<char> {
    if m.contains_key(k) {
        m[k]
    } else {
        Seq::empty()
    }
}

/// The entity of a contact: the logged `DXCC` field when it parses, else
/// what the resolver makes of the call.
pub open spec fn contact_entity(res: DxccResolver, m: Map<Seq<char>, Seq<char>>, call: Seq<char>) -> Option<i32> {
    match field_i32(m, "DXCC"@) {
        Some(d) => Some(d),
        None => resolve_spec(res.ents(), res.rules(), res.now(), call),
    }
}

/// What one ADIF record does to a matrix being built, and the report line
/// it adds when ClubLog gives it no credit. Records without a call, band
/// or mode, with no resolvable entity, or whose entity is not a current
/// one (id 0 or below, or unknown) change nothing.
pub open spec fn build_step(
    res: DxccResolver,
    v: MatrixView,
    m: Map<Seq<char>, Seq<char>>,
) -> (MatrixView, Option<UncreditedView>) {
    if !(m.contains_key("CALL"@) && m.contains_key("BAND"@) && m.contains_key("MODE"@)) {
        (v, None)
    } else {
        let call = up_field(m, "CALL"@);
        let band = up_field(m, "BAND"@);
        let mode = up_field(m, "MODE"@);
        let at = qso_unix_spec(m);
        let note = |d: Option<i32>, why: UncreditedReason|
            UncreditedView {
                call: call,
                qso_date: raw_or_empty(m, "QSO_DATE"@),
                time_on: raw_or_empty(m, "TIME_ON"@),
                band: band,
                mode: mode,
                dxcc: d,
                reason: why,
            };
        if (exists|i: int|
            0 <= i < res.ops().len() && #[trigger] res.ops()[i].call@ == unicode_upper(call) && covers(
                res.ops()[i],
                at,
            )) {
            (v, Some(note(contact_entity(res, m, call), UncreditedReason::InvalidOperation)))
        } else {
            match contact_entity(res, m, call) {
                None => (v, None),
                Some(d) => if d <= 0 || entity_of(res.ents(), d) is None {
                    (v, None)
                } else if whitelist_rejected_spec(res.ents(), res.rules(), d, call, at) {
                    (v, Some(note(Some(d), UncreditedReason::NotWhitelisted)))
                } else {
                    let confirmed = confirmed_spec(m);
                    let mc = canonical_spec(mode)@;
                    let v1 = mv_record(v, d, band, mc, call, confirmed);
                    let v2 = if m.contains_key("GRIDSQUARE"@) {
                        mv_grid(v1, up_field(m, "GRIDSQUARE"@), band, Some(mc), confirmed)
                    } else {
                        v1
                    };
                    let v3 = if m.contains_key("STATE"@) && (field_i32(m, "DXCC"@) matches Some(x)
                        && was_entity(x)) {
                        mv_state(v2, up_field(m, "STATE"@), band, Some(mc), confirmed)
                    } else {
                        v2
                    };
                    let v4 = if m.contains_key("IOTA"@) {
                        mv_iota(v3, m["IOTA"@], band, Some(mc), confirmed)
                    } else {
                        v3
                    };
                    let zone = match field_i32(m, "CQZ"@) {
                        Some(z) => Some(z),
                        None => zone_spec(res.ents(), res.rules(), res.now(), call),
                    };
                    let v5 = match zone {
                        Some(z) => mv_zone(v4, z, band, Some(mc), confirmed),
                        None => v4,
                    };
                    let v6 = match qso_year_spec(m) {
                        Some(y) => mv_marathon(v5, y, Some(d), zone),
                        None => v5,
                    };
                    (v6, None)
                },
            }
        }
    }
}

/// The matrix and the uncredited report after the records `recs`, in
/// order.
pub open spec fn build_spec(res: DxccResolver, recs: Seq<Map<Seq<char>, Seq<char>>>) -> (MatrixView, Seq<UncreditedView>)
    decreases recs.len(),
{
    if recs.len() == 0 {
        (empty_matrix(), Seq::empty())
    } else {
        let (v, u) = build_spec(res, recs.drop_last());
        let (v2, note) = build_step(res, v, recs.last());
        (v2, match note {
            Some(n) => u.push(n),
            None => u,
        })
    }
}

impl LogMatrix {
    /// Build a matrix from ADIF text: the logged DXCC field wins over
    /// resolution, unknown/deleted/invalid entities are skipped, modes
    /// collapse to award classes. Returns the matrix and the number of
    /// records in the file (every record, credited or not).
    pub fn build_from_adif(content: &str, resolver: &DxccResolver) -> (r: (LogMatrix, usize))
        ensures
            r.0.wf(),
            r.0.mv() == build_spec(*resolver, adif_spec(content@)).0,
            r.1 == adif_spec(content@).len(),
    {
        let (m, n, _) = Self::build_from_adif_reporting(content, resolver);
        (m, n)
    }

    /// [`build_from_adif`](Self::build_from_adif), also returning the
    /// contacts ClubLog's credit rules gave nothing, and why.
    pub fn build_from_adif_reporting(content: &str, resolver: &DxccResolver) -> (r: (
        LogMatrix,
        usize,
        Vec<UncreditedContact>,
    ))
        ensures
            r.0.wf(),
            r.0.mv() == build_spec(*resolver, adif_spec(content@)).0,
            r.1 == adif_spec(content@).len(),
            uncredited_views(r.2@) == build_spec(*resolver, adif_spec(content@)).1,
    {
        let records = crate::adif::parse(content);
        let ghost recs = adif_spec(content@);
        let count = records.len();
        let mut matrix = LogMatrix::new();
        let mut uncredited: Vec<UncreditedContact> = Vec::new();
        let mut i: usize = 0;
        assert(recs.take(0) =~= Seq::<Map<Seq<char>, Seq<char>>>::empty());
        assert(matrix.mv() == empty_matrix());
        assert(uncredited_views(uncredited@) =~= Seq::<UncreditedView>::empty());
        while i < records.len()
            invariant
                i <= records@.len(),
                recs == adif_spec(content@),
                record_views(records@) == recs,
                matrix.wf(),
                (matrix.mv(), uncredited_views(uncredited@)) == build_spec(*resolver, recs.take(i as int)),
            decreases records@.len() - i,
        {
            assert(recs.take(i + 1).drop_last() =~= recs.take(i as int));
            assert(recs.take(i + 1).last() == records@[i as int]@);
            let r = &records[i];
            let ghost before_u = uncredited@;
            let note = Self::build_one(&mut matrix, r, resolver);
            match note {
                Some(c) => {
                    uncredited.push(c);
                    assert(uncredited_views(uncredited@) =~= uncredited_views(before_u).push(uncredited_view(c)));
                },
                None => {},
            }
            i = i + 1;
        }
        assert(recs.take(records@.len() as int) =~= recs);
        (matrix, count, uncredited)
    }

    /// One record of [`build_from_adif_reporting`](Self::build_from_adif_reporting).
    fn build_one(matrix: &mut LogMatrix, r: &crate::adif::Record, resolver: &DxccResolver) -> (note: Option<UncreditedContact>)
        requires
            old(matrix).wf(),
        ensures
            final(matrix).wf(),
            (final(matrix).mv(), match note {
                Some(c) => Some(uncredited_view(c)),
                None => None,
            }) == build_step(*resolver, old(matrix).mv(), r@),
    {
        let (call, band, mode) = match (r.call(), r.band(), r.mode()) {
            (Some(c), Some(b), Some(m)) => (c, b, m),
            _ => return None,
        };
        let at = r.qso_datetime_unix();
        let qso_date = match r.qso_date() {
            Some(d) => d.to_owned(),
            None => String::new(),
        };
        let time_on = match r.time_on() {
            Some(t) => t.to_owned(),
            None => String::new(),
        };
        if resolver.is_invalid_operation(call.as_str(), at) {
            let d = match r.dxcc() {
                Some(d) => Some(d),
                None => resolver.resolve(call.as_str()),
            };
            return Some(UncreditedContact {
                call,
                qso_date,
                time_on,
                band,
                mode,
                dxcc: d,
                reason: UncreditedReason::InvalidOperation,
            });
        }
        let d = match r.dxcc() {
            Some(d) => d,
            None => match resolver.resolve(call.as_str()) {
                Some(d) => d,
                None => return None,
            },
        };
        if d <= 0 || resolver.entity(d).is_none() {
            return None;
        }
        if resolver.is_whitelist_rejected(d, call.as_str(), at) {
            return Some(UncreditedContact {
                call,
                qso_date,
                time_on,
                band,
                mode,
                dxcc: Some(d),
                reason: UncreditedReason::NotWhitelisted,
            });
        }
        let confirmed = r.is_confirmed();
        let mc = crate::modes::canonical(mode.as_str());
        matrix.record(d, band.as_str(), mc, call.as_str(), confirmed);
        if let Some(g) = r.grid_square() {
            matrix.record_grid(g.as_str(), band.as_str(), Some(mc), confirmed);
        }
        if let Some(st) = r.state() {
            let us = match r.dxcc() {
                Some(x) => crate::awards::counts_for_was(x),
                None => false,
            };
            if us {
                matrix.record_state(st.as_str(), band.as_str(), Some(mc), confirmed);
            }
        }
        if let Some(iota) = r.iota() {
            matrix.record_iota(iota, band.as_str(), Some(mc), confirmed);
        }
        let zone = match r.cqz() {
            Some(z) => Some(z),
            None => resolver.zone(call.as_str()),
        };
        if let Some(z) = zone {
            matrix.record_zone(z, band.as_str(), Some(mc), confirmed);
        }
        if let Some(year) = r.qso_year() {
            matrix.record_marathon(year, Some(d), zone);
        }
        None
    }

    /// Merge a LoTW QSL report (confirmations only) into the award axes:
    /// grid, state and island confirmations; DXCC and worked calls are left
    /// alone. Returns how many records landed at least one award fact.
    pub fn merge_lotw_confirmed(&mut self, content: &str) -> (r: usize)
        requires
            old(self).wf(),
        ensures
            final(self).wf(),
            (final(self).mv(), r as nat) == merge_spec(old(self).mv(), adif_spec(content@)),
    {
        let records = crate::adif::parse(content);
        let ghost recs = adif_spec(content@);
        let ghost start = self.mv();
        let mut merged: usize = 0;
        let mut i: usize = 0;
        assert(recs.take(0) =~= Seq::<Map<Seq<char>, Seq<char>>>::empty());
        while i < records.len()
            invariant
                i <= records@.len(),
                recs == adif_spec(content@),
                record_views(records@) == recs,
                self.wf(),
                merged <= i,
                (self.mv(), merged as nat) == merge_spec(start, recs.take(i as int)),
            decreases records@.len() - i,
        {
            assert(recs.take(i + 1).drop_last() =~= recs.take(i as int));
            assert(recs.take(i + 1).last() == records@[i as int]@);
            let r = &records[i];
            let any = self.merge_one(r);
            if any {
                merged = merged + 1;
            }
            i = i + 1;
        }
        assert(recs.take(records@.len() as int) =~= recs);
        merged
    }

    fn merge_one(&mut self, r: &crate::adif::Record) -> (any: bool)
        requires
            old(self).wf(),
        ensures
            final(self).wf(),
            (final(self).mv(), any) == merge_step(old(self).mv(), r@),
    {
        let band = match r.band() {
            Some(b) => b,
            None => return false,
        };
        let mc = match r.mode() {
            Some(m) => crate::modes::canonical_opt(m.as_str()),
            None => None,
        };
        let mut any = false;
        if let Some(g) = r.grid_square() {
            let got = self.record_grid(g.as_str(), band.as_str(), mc, true);
            any = any || got;
        }
        if let Some(st) = r.state() {
            let us = match r.dxcc() {
                Some(x) => crate::awards::counts_for_was(x),
                None => false,
            };
            if us {
                let got = self.record_state(st.as_str(), band.as_str(), mc, true);
                any = any || got;
            }
        }
        if let Some(iota) = r.iota() {
            let got = self.record_iota(iota, band.as_str(), mc, true);
            any = any || got;
        }
        any
    }
}

/// The mode class of a LoTW record: its `MODE` field's class, `None` when
/// the field is absent or blank.
pub open spec fn lotw_class(m: Map<Seq<char>, Seq<char>>) -> Option<Seq<char>> {
    if m.contains_key("MODE"@) && trim(up_field(m, "MODE"@)).len() > 0 {
        Some(canonical_spec(up_field(m, "MODE"@))@)
    } else {
        None
    }
}

/// What one LoTW record does, and whether it landed any award fact.
pub open spec fn merge_step(v: MatrixView, m: Map<Seq<char>, Seq<char>>) -> (MatrixView, bool) {
    if !m.contains_key("BAND"@) {
        (v, false)
    } else {
        let band = up_field(m, "BAND"@);
        let mc = lotw_class(m);
        let g = m.contains_key("GRIDSQUARE"@) && grid_ok(up_field(m, "GRIDSQUARE"@), band);
        let v1 = if m.contains_key("GRIDSQUARE"@) {
            mv_grid(v, up_field(m, "GRIDSQUARE"@), band, mc, true)
        } else {
            v
        };
        let us = m.contains_key("STATE"@) && (field_i32(m, "DXCC"@) matches Some(x) && was_entity(x));
        let st = us && views(us_states()).contains(state_code(up_field(m, "STATE"@)));
        let v2 = if us {
            mv_state(v1, up_field(m, "STATE"@), band, mc, true)
        } else {
            v1
        };
        let i = m.contains_key("IOTA"@) && iota_spec(m["IOTA"@]) is Some;
        let v3 = if m.contains_key("IOTA"@) {
            mv_iota(v2, m["IOTA"@], band, mc, true)
        } else {
            v2
        };
        (v3, g || st || i)
    }
}

/// The matrix after merging the records `recs`, and how many of them
/// landed at least one award fact.
pub open spec fn merge_spec(v: MatrixView, recs: Seq<Map<Seq<char>, Seq<char>>>) -> (MatrixView, nat)
    decreases recs.len(),
{
    if recs.len() == 0 {
        (v, 0)
    } else {
        let (v1, n) = merge_spec(v, recs.drop_last());
        let (v2, any) = merge_step(v1, recs.last());
        (v2, if any {
            n + 1
        } else {
            n
        })
    }
}

// ---------------------------------------------------------------------------
// Laws
// ---------------------------------------------------------------------------

/// Territories never take a WAS slot: if every state key of a matrix is
/// one of the fifty states, it still is after a `record_state` of any
/// value, since only a value that names a state (DC folded into MD) adds
/// or changes a key.
pub proof fn law_only_states_take_a_was_slot(
    states: Seq<(Seq<char>, AwardView)>,
    raw: Seq<char>,
    band: Seq<char>,
    mode: Option<Seq<char>>,
    confirmed: bool,
)
    requires
        forall|i: int| 0 <= i < states.len() ==> views(us_states()).contains(#[trigger] states[i].0),
    ensures
        ({
            let after = if views(us_states()).contains(state_code(raw)) {
                upsert(
                    states,
                    state_code(raw),
                    award_recorded(prior(states, state_code(raw), empty_award()), band, mode, confirmed),
                )
            } else {
                states
            };
            forall|i: int| 0 <= i < after.len() ==> views(us_states()).contains(#[trigger] after[i].0)
        }),
{
    crate::assoc::lemma_key_index_props(states, state_code(raw));
}

/// One entity's status is consistent: each confirmed set lies inside its
/// worked set, and every worked slot is a worked band with a worked mode.
pub open spec fn dxcc_consistent(v: DxccView) -> bool {
    &&& forall|x: Seq<char>| #[trigger] v.confirmed_bands.contains(x) ==> v.bands.contains(x)
    &&& forall|x: Seq<char>| #[trigger] v.confirmed_modes.contains(x) ==> v.modes.contains(x)
    &&& forall|x: Seq<char>| #[trigger] v.confirmed_slots.contains(x) ==> v.slots.contains(x)
    &&& forall|x: Seq<char>| #[trigger] v.slots.contains(x) ==> exists|b: Seq<char>, m: Seq<char>|
        v.bands.contains(b) && v.modes.contains(m) && x == #[trigger] slot_key(b, m)
}

/// Every entity's status in `d` is consistent.
pub open spec fn all_consistent(d: Seq<(i32, DxccView)>) -> bool {
    forall|i: int| 0 <= i < d.len() ==> dxcc_consistent(#[trigger] d[i].1)
}

proof fn lemma_add_new_contains<T>(s: Seq<T>, x: T, y: T)
    ensures
        add_new(s, x).contains(y) <==> s.contains(y) || y == x,
{
    if !s.contains(x) {
        let t = s.push(x);
        if s.contains(y) {
            let i = choose|i: int| 0 <= i < s.len() && s[i] == y;
            assert(t[i] == y);
        }
        if t.contains(y) && y != x {
            let i = choose|i: int| 0 <= i < t.len() && t[i] == y;
            assert(s[i] == y);
        }
        assert(t[s.len() as int] == x);
    }
}

proof fn lemma_recorded_consistent(v: DxccView, band: Seq<char>, mode: Seq<char>, confirmed: bool)
    requires
        dxcc_consistent(v),
    ensures
        dxcc_consistent(dxcc_recorded(v, band, mode, confirmed)),
        dxcc_recorded(v, band, mode, confirmed).slots.contains(slot_key(band, mode)),
        confirmed ==> dxcc_recorded(v, band, mode, confirmed).confirmed_slots.contains(slot_key(band, mode)),
{
    let w = dxcc_recorded(v, band, mode, confirmed);
    let k = slot_key(band, mode);
    assert forall|x: Seq<char>| #[trigger] w.confirmed_bands.contains(x) implies w.bands.contains(x) by {
        lemma_add_new_contains(v.bands, band, x);
        lemma_add_new_contains(v.confirmed_bands, band, x);
    }
    assert forall|x: Seq<char>| #[trigger] w.confirmed_modes.contains(x) implies w.modes.contains(x) by {
        lemma_add_new_contains(v.modes, mode, x);
        lemma_add_new_contains(v.confirmed_modes, mode, x);
    }
    assert forall|x: Seq<char>| #[trigger] w.confirmed_slots.contains(x) implies w.slots.contains(x) by {
        lemma_add_new_contains(v.slots, k, x);
        lemma_add_new_contains(v.confirmed_slots, k, x);
    }
    assert forall|x: Seq<char>| #[trigger] w.slots.contains(x) implies exists|b: Seq<char>, m: Seq<char>|
        w.bands.contains(b) && w.modes.contains(m) && x == #[trigger] slot_key(b, m) by {
        lemma_add_new_contains(v.slots, k, x);
        if x == k {
            lemma_add_new_contains(v.bands, band, band);
            lemma_add_new_contains(v.modes, mode, mode);
        } else {
            let (b, m) = choose|b: Seq<char>, m: Seq<char>|
                v.bands.contains(b) && v.modes.contains(m) && x == #[trigger] slot_key(b, m);
            lemma_add_new_contains(v.bands, band, b);
            lemma_add_new_contains(v.modes, mode, m);
        }
    }
    lemma_add_new_contains(v.slots, k, k);
    lemma_add_new_contains(v.confirmed_slots, k, k);
}


// ---------------------------------------------------------------------------
// Invalid operations only take credit away
// ---------------------------------------------------------------------------

/// Everything `a` records for one entity, `b` records too.
pub open spec fn dxcc_within(a: DxccView, b: DxccView) -> bool {
    &&& forall|x: Seq<char>| #[trigger] a.bands.contains(x) ==> b.bands.contains(x)
    &&& forall|x: Seq<char>| #[trigger] a.modes.contains(x) ==> b.modes.contains(x)
    &&& forall|x: Seq<char>| #[trigger] a.slots.contains(x) ==> b.slots.contains(x)
    &&& forall|x: Seq<char>| #[trigger] a.confirmed_bands.contains(x) ==> b.confirmed_bands.contains(x)
    &&& forall|x: Seq<char>| #[trigger] a.confirmed_modes.contains(x) ==> b.confirmed_modes.contains(x)
    &&& forall|x: Seq<char>| #[trigger] a.confirmed_slots.contains(x) ==> b.confirmed_slots.contains(x)
}

/// Every entity `a` holds, `b` holds with at least as much recorded, and
/// every call `a` has worked, `b` has worked.
pub open spec fn dxcc_credit_within(a: MatrixView, b: MatrixView) -> bool {
    &&& forall|k: i32| #[trigger] get(a.dxcc, k) is Some ==> get(b.dxcc, k) is Some && dxcc_within(
        get(a.dxcc, k).unwrap(),
        get(b.dxcc, k).unwrap(),
    )
    &&& forall|x: Seq<char>| #[trigger] a.calls.contains(x) ==> b.calls.contains(x)
}

/// Whether a contact's call is on the resolver's invalid-operations list
/// for the contact's date.
spec fn invalid_contact(res: DxccResolver, m: Map<Seq<char>, Seq<char>>) -> bool {
    let call = up_field(m, "CALL"@);
    let at = qso_unix_spec(m);
    exists|i: int|
        0 <= i < res.ops().len() && #[trigger] res.ops()[i].call@ == unicode_upper(call) && covers(
            res.ops()[i],
            at,
        )
}

/// The `record` a contact makes, when it earns DXCC credit.
spec fn credit_of(res: DxccResolver, m: Map<Seq<char>, Seq<char>>) -> Option<(i32, Seq<char>, Seq<char>, Seq<char>, bool)> {
    if !(m.contains_key("CALL"@) && m.contains_key("BAND"@) && m.contains_key("MODE"@)) {
        None
    } else if invalid_contact(res, m) {
        None
    } else {
        let call = up_field(m, "CALL"@);
        let at = qso_unix_spec(m);
        match contact_entity(res, m, call) {
            None => None,
            Some(d) => if d <= 0 || entity_of(res.ents(), d) is None {
                None
            } else if whitelist_rejected_spec(res.ents(), res.rules(), d, call, at) {
                None
            } else {
                Some((d, up_field(m, "BAND"@), canonical_spec(up_field(m, "MODE"@))@, call, confirmed_spec(m)))
            },
        }
    }
}

/// What one step does to the entities and the worked calls.
proof fn lemma_step_credit(res: DxccResolver, v: MatrixView, m: Map<Seq<char>, Seq<char>>)
    ensures
        ({
            let w = build_step(res, v, m).0;
            match credit_of(res, m) {
                None => w.dxcc == v.dxcc && w.calls == v.calls,
                Some(a) => w.dxcc == mv_record(v, a.0, a.1, a.2, a.3, a.4).dxcc && w.calls == mv_record(
                    v,
                    a.0,
                    a.1,
                    a.2,
                    a.3,
                    a.4,
                ).calls,
            }
        }),
{
}

proof fn lemma_add_new_within(a: Seq<Seq<char>>, b: Seq<Seq<char>>, y: Seq<char>)
    requires
        forall|x: Seq<char>| #[trigger] a.contains(x) ==> b.contains(x),
    ensures
        forall|x: Seq<char>| #[trigger] add_new(a, y).contains(x) ==> add_new(b, y).contains(x),
        forall|x: Seq<char>| #[trigger] a.contains(x) ==> add_new(b, y).contains(x),
{
    assert forall|x: Seq<char>| #[trigger] add_new(a, y).contains(x) implies add_new(b, y).contains(x) by {
        lemma_add_new_contains(a, y, x);
        lemma_add_new_contains(b, y, x);
    }
    assert forall|x: Seq<char>| #[trigger] a.contains(x) implies add_new(b, y).contains(x) by {
        lemma_add_new_contains(b, y, x);
    }
}

proof fn lemma_recorded_within(a: DxccView, b: DxccView, band: Seq<char>, mode: Seq<char>, confirmed: bool)
    requires
        dxcc_within(a, b),
    ensures
        dxcc_within(dxcc_recorded(a, band, mode, confirmed), dxcc_recorded(b, band, mode, confirmed)),
        dxcc_within(a, dxcc_recorded(b, band, mode, confirmed)),
{
    let k = slot_key(band, mode);
    lemma_add_new_within(a.bands, b.bands, band);
    lemma_add_new_within(a.modes, b.modes, mode);
    lemma_add_new_within(a.slots, b.slots, k);
    lemma_add_new_within(a.confirmed_bands, b.confirmed_bands, band);
    lemma_add_new_within(a.confirmed_modes, b.confirmed_modes, mode);
    lemma_add_new_within(a.confirmed_slots, b.confirmed_slots, k);
}

/// Recording the same contact into both keeps one within the other.
proof fn lemma_record_within(
    v: MatrixView,
    w: MatrixView,
    d: i32,
    band: Seq<char>,
    mode: Seq<char>,
    call: Seq<char>,
    confirmed: bool,
)
    requires
        distinct_keys(v.dxcc),
        distinct_keys(w.dxcc),
        dxcc_credit_within(v, w),
    ensures
        dxcc_credit_within(mv_record(v, d, band, mode, call, confirmed), mv_record(w, d, band, mode, call, confirmed)),
{
    let pv = prior(v.dxcc, d, empty_dxcc());
    let pw = prior(w.dxcc, d, empty_dxcc());
    assert(dxcc_within(pv, pw)) by {
        if get(v.dxcc, d) is None {
            assert(dxcc_within(empty_dxcc(), pw));
        }
    }
    lemma_recorded_within(pv, pw, band, mode, confirmed);
    let xv = dxcc_recorded(pv, band, mode, confirmed);
    let xw = dxcc_recorded(pw, band, mode, confirmed);
    assert forall|k: i32| #[trigger] get(upsert(v.dxcc, d, xv), k) is Some implies get(upsert(w.dxcc, d, xw), k) is Some
        && dxcc_within(get(upsert(v.dxcc, d, xv), k).unwrap(), get(upsert(w.dxcc, d, xw), k).unwrap()) by {
        crate::assoc::lemma_upsert_get(v.dxcc, d, xv, k);
        crate::assoc::lemma_upsert_get(w.dxcc, d, xw, k);
    }
    lemma_add_new_within(v.calls, w.calls, unicode_lower(call));
}

/// Recording a contact only adds to a matrix.
proof fn lemma_record_grows(
    v: MatrixView,
    w: MatrixView,
    d: i32,
    band: Seq<char>,
    mode: Seq<char>,
    call: Seq<char>,
    confirmed: bool,
)
    requires
        distinct_keys(w.dxcc),
        dxcc_credit_within(v, w),
    ensures
        dxcc_credit_within(v, mv_record(w, d, band, mode, call, confirmed)),
{
    let pw = prior(w.dxcc, d, empty_dxcc());
    let xw = dxcc_recorded(pw, band, mode, confirmed);
    assert forall|k: i32| #[trigger] get(v.dxcc, k) is Some implies get(upsert(w.dxcc, d, xw), k) is Some
        && dxcc_within(get(v.dxcc, k).unwrap(), get(upsert(w.dxcc, d, xw), k).unwrap()) by {
        crate::assoc::lemma_upsert_get(w.dxcc, d, xw, k);
        if k == d {
            lemma_recorded_within(get(v.dxcc, k).unwrap(), pw, band, mode, confirmed);
        }
    }
    lemma_add_new_within(v.calls, w.calls, unicode_lower(call));
}

/// Building keeps entity keys distinct and statuses free of repeats.
proof fn lemma_build_distinct(res: DxccResolver, recs: Seq<Map<Seq<char>, Seq<char>>>)
    ensures
        distinct_keys(build_spec(res, recs).0.dxcc),
        statuses_unique(build_spec(res, recs).0.dxcc),
    decreases recs.len(),
{
    if recs.len() > 0 {
        lemma_build_distinct(res, recs.drop_last());
        let v = build_spec(res, recs.drop_last()).0;
        lemma_step_credit(res, v, recs.last());
        if let Some(a) = credit_of(res, recs.last()) {
            crate::assoc::lemma_upsert_get(v.dxcc, a.0, dxcc_recorded(prior(v.dxcc, a.0, empty_dxcc()), a.1, a.2, a.4), a.0);
            lemma_record_unique(v, a.0, a.1, a.2, a.3, a.4);
        }
    } else {
        assert(statuses_unique(Seq::<(i32, DxccView)>::empty()));
    }
}

/// No entity's status lists anything twice.
pub open spec fn statuses_unique(d: Seq<(i32, DxccView)>) -> bool {
    forall|i: int, a: Axis| 0 <= i < d.len() ==> #[trigger] axis(d[i].1, a).no_duplicates()
}

proof fn lemma_add_new_unique<T>(s: Seq<T>, x: T)
    requires
        s.no_duplicates(),
    ensures
        add_new(s, x).no_duplicates(),
{
    if !s.contains(x) {
        let t = s.push(x);
        assert forall|i: int, j: int| 0 <= i < t.len() && 0 <= j < t.len() && i != j implies t[i] != t[j] by {
            if j == s.len() {
                assert(s[i] == t[i]);
            } else if i == s.len() {
                assert(s[j] == t[j]);
            } else {
                assert(s[i] == t[i] && s[j] == t[j]);
            }
        }
    }
}

proof fn lemma_recorded_unique(v: DxccView, band: Seq<char>, mode: Seq<char>, confirmed: bool)
    requires
        forall|a: Axis| #[trigger] axis(v, a).no_duplicates(),
    ensures
        forall|a: Axis| #[trigger] axis(dxcc_recorded(v, band, mode, confirmed), a).no_duplicates(),
{
    let k = slot_key(band, mode);
    assert(axis(v, Axis::Bands).no_duplicates());
    assert(axis(v, Axis::Modes).no_duplicates());
    assert(axis(v, Axis::Slots).no_duplicates());
    assert(axis(v, Axis::ConfirmedBands).no_duplicates());
    assert(axis(v, Axis::ConfirmedModes).no_duplicates());
    assert(axis(v, Axis::ConfirmedSlots).no_duplicates());
    lemma_add_new_unique(v.bands, band);
    lemma_add_new_unique(v.modes, mode);
    lemma_add_new_unique(v.slots, k);
    lemma_add_new_unique(v.confirmed_bands, band);
    lemma_add_new_unique(v.confirmed_modes, mode);
    lemma_add_new_unique(v.confirmed_slots, k);
}

/// Recording keeps every status free of repeats.
proof fn lemma_record_unique(v: MatrixView, d: i32, band: Seq<char>, mode: Seq<char>, call: Seq<char>, confirmed: bool)
    requires
        distinct_keys(v.dxcc),
        statuses_unique(v.dxcc),
    ensures
        statuses_unique(mv_record(v, d, band, mode, call, confirmed).dxcc),
{
    let p = prior(v.dxcc, d, empty_dxcc());
    crate::assoc::lemma_key_index_props(v.dxcc, d);
    let ki = key_index(v.dxcc, d);
    assert forall|a: Axis| #[trigger] axis(p, a).no_duplicates() by {
        if 0 <= ki < v.dxcc.len() {
            assert(axis(v.dxcc[ki].1, a).no_duplicates());
        }
    }
    lemma_recorded_unique(p, band, mode, confirmed);
    let x = dxcc_recorded(p, band, mode, confirmed);
    let n = upsert(v.dxcc, d, x);
    assert forall|i: int, a: Axis| 0 <= i < n.len() implies #[trigger] axis(n[i].1, a).no_duplicates() by {
        if 0 <= ki < v.dxcc.len() {
            if i != ki {
                assert(n[i] == v.dxcc[i]);
            }
        } else if i < v.dxcc.len() {
            assert(n[i] == v.dxcc[i]);
        }
    }
}

/// With distinct keys, `get` finds exactly the entry holding the key.
proof fn lemma_get_distinct<K, V>(s: Seq<(K, V)>, q: K)
    requires
        distinct_keys(s),
    ensures
        (get(s, q) is Some) == (exists|i: int| 0 <= i < s.len() && #[trigger] s[i].0 == q),
        forall|i: int| 0 <= i < s.len() && #[trigger] s[i].0 == q ==> get(s, q) == Some(s[i].1),
{
    crate::assoc::lemma_key_index_props(s, q);
    assert forall|i: int| 0 <= i < s.len() && #[trigger] s[i].0 == q implies get(s, q) == Some(s[i].1) by {
        crate::assoc::lemma_get_at(s, i);
    }
}

/// Taking one entry out removes its share of a total.
proof fn lemma_sum_remove(s: Seq<(i32, DxccView)>, j: int, a: Axis)
    requires
        0 <= j < s.len(),
    ensures
        sum_sizes(s, Set::empty(), a) == sum_sizes(s.remove(j), Set::empty(), a) + axis(s[j].1, a).len(),
    decreases s.len(),
{
    if j == s.len() - 1 {
        assert(s.remove(j) =~= s.drop_last());
    } else {
        let t = s.drop_last();
        lemma_sum_remove(t, j, a);
        assert(s.remove(j).drop_last() =~= t.remove(j));
        assert(s.remove(j).last() == s.last());
    }
}

/// Two repeat-free lists, the first inside the second: the first is no
/// longer.
proof fn lemma_within_len(x: Seq<Seq<char>>, y: Seq<Seq<char>>)
    requires
        x.no_duplicates(),
        y.no_duplicates(),
        forall|e: Seq<char>| #[trigger] x.contains(e) ==> y.contains(e),
    ensures
        x.len() <= y.len(),
{
    x.unique_seq_to_set();
    y.unique_seq_to_set();
    assert(x.to_set().subset_of(y.to_set()));
    vstd::set_lib::lemma_len_subset(x.to_set(), y.to_set());
}

/// Where every entity of `a` is one of `b` with no larger set on axis
/// `ax`, the total over `a` is at most the total over `b`, and so is the
/// number of entities.
proof fn lemma_totals_within(a: Seq<(i32, DxccView)>, b: Seq<(i32, DxccView)>, ax: Axis)
    requires
        distinct_keys(a),
        distinct_keys(b),
        forall|k: i32| #[trigger] get(a, k) is Some ==> get(b, k) is Some && axis(get(a, k).unwrap(), ax).len()
            <= axis(get(b, k).unwrap(), ax).len(),
    ensures
        sum_sizes(a, Set::empty(), ax) <= sum_sizes(b, Set::empty(), ax),
        count_kept(a, Set::empty()) <= count_kept(b, Set::empty()),
    decreases a.len(),
{
    if a.len() > 0 {
        let last = a.len() - 1;
        let k = a[last].0;
        lemma_get_distinct(a, k);
        lemma_get_distinct(b, k);
        let j = choose|j: int| 0 <= j < b.len() && #[trigger] b[j].0 == k;
        let a2 = a.drop_last();
        let b2 = b.remove(j);
        assert forall|p: int, q: int| 0 <= p < q < a2.len() implies a2[p].0 != a2[q].0 by {
            assert(a2[p] == a[p] && a2[q] == a[q]);
        }
        assert forall|p: int, q: int| 0 <= p < q < b2.len() implies b2[p].0 != b2[q].0 by {
            if q < j {
                assert(b2[p] == b[p] && b2[q] == b[q]);
            } else if p < j {
                assert(b2[p] == b[p] && b2[q] == b[q + 1]);
            } else {
                assert(b2[p] == b[p + 1] && b2[q] == b[q + 1]);
            }
        }
        assert forall|k2: i32| #[trigger] get(a2, k2) is Some implies get(b2, k2) is Some && axis(
            get(a2, k2).unwrap(),
            ax,
        ).len() <= axis(get(b2, k2).unwrap(), ax).len() by {
            lemma_get_distinct(a2, k2);
            lemma_get_distinct(a, k2);
            lemma_get_distinct(b2, k2);
            lemma_get_distinct(b, k2);
            let i = choose|i: int| 0 <= i < a2.len() && #[trigger] a2[i].0 == k2;
            assert(a[i] == a2[i]);
            assert(k2 != k);
            assert(get(a, k2) is Some);
            let jb = choose|jb: int| 0 <= jb < b.len() && #[trigger] b[jb].0 == k2;
            assert(jb != j);
            if jb < j {
                assert(b2[jb] == b[jb]);
            } else {
                assert(b2[jb - 1] == b[jb]);
            }
        }
        lemma_totals_within(a2, b2, ax);
        lemma_sum_remove(b, j, ax);
        lemma_count_remove(b, j);
    }
}

/// Taking one entry out removes one entity from the count.
proof fn lemma_count_remove(s: Seq<(i32, DxccView)>, j: int)
    requires
        0 <= j < s.len(),
    ensures
        count_kept(s, Set::empty()) == count_kept(s.remove(j), Set::empty()) + 1,
    decreases s.len(),
{
    if j == s.len() - 1 {
        assert(s.remove(j) =~= s.drop_last());
    } else {
        let t = s.drop_last();
        lemma_count_remove(t, j);
        assert(s.remove(j).drop_last() =~= t.remove(j));
        assert(s.remove(j).last() == s.last());
    }
}

/// Totals over a matrix that lies within another are no larger.
proof fn lemma_credit_totals(a: MatrixView, b: MatrixView)
    requires
        distinct_keys(a.dxcc),
        distinct_keys(b.dxcc),
        statuses_unique(a.dxcc),
        statuses_unique(b.dxcc),
        dxcc_credit_within(a, b),
    ensures
        forall|ax: Axis| #[trigger] sum_sizes(a.dxcc, Set::empty(), ax) <= sum_sizes(b.dxcc, Set::empty(), ax),
        count_kept(a.dxcc, Set::empty()) <= count_kept(b.dxcc, Set::empty()),
{
    assert forall|ax: Axis| #[trigger] sum_sizes(a.dxcc, Set::empty(), ax) <= sum_sizes(b.dxcc, Set::empty(), ax) by {
        assert forall|k: i32| #[trigger] get(a.dxcc, k) is Some implies get(b.dxcc, k) is Some && axis(
            get(a.dxcc, k).unwrap(),
            ax,
        ).len() <= axis(get(b.dxcc, k).unwrap(), ax).len() by {
            lemma_get_distinct(a.dxcc, k);
            lemma_get_distinct(b.dxcc, k);
            let i = choose|i: int| 0 <= i < a.dxcc.len() && #[trigger] a.dxcc[i].0 == k;
            let j = choose|j: int| 0 <= j < b.dxcc.len() && #[trigger] b.dxcc[j].0 == k;
            let va = a.dxcc[i].1;
            let vb = b.dxcc[j].1;
            assert(axis(va, ax).no_duplicates());
            assert(axis(vb, ax).no_duplicates());
            assert(dxcc_within(va, vb));
            assert forall|e: Seq<char>| #[trigger] axis(va, ax).contains(e) implies axis(vb, ax).contains(e) by {
                match ax {
                    Axis::Bands => assert(va.bands.contains(e)),
                    Axis::Modes => assert(va.modes.contains(e)),
                    Axis::Slots => assert(va.slots.contains(e)),
                    Axis::ConfirmedBands => assert(va.confirmed_bands.contains(e)),
                    Axis::ConfirmedModes => assert(va.confirmed_modes.contains(e)),
                    Axis::ConfirmedSlots => assert(va.confirmed_slots.contains(e)),
                }
            }
            lemma_within_len(axis(va, ax), axis(vb, ax));
        }
        lemma_totals_within(a.dxcc, b.dxcc, ax);
    }
    assert(sum_sizes(a.dxcc, Set::empty(), Axis::Slots) <= sum_sizes(b.dxcc, Set::empty(), Axis::Slots));
    assert forall|k: i32| #[trigger] get(a.dxcc, k) is Some implies get(b.dxcc, k) is Some && axis(
        get(a.dxcc, k).unwrap(),
        Axis::Slots,
    ).len() <= axis(get(b.dxcc, k).unwrap(), Axis::Slots).len() by {
        lemma_get_distinct(a.dxcc, k);
        lemma_get_distinct(b.dxcc, k);
        let i = choose|i: int| 0 <= i < a.dxcc.len() && #[trigger] a.dxcc[i].0 == k;
        let j = choose|j: int| 0 <= j < b.dxcc.len() && #[trigger] b.dxcc[j].0 == k;
        let va = a.dxcc[i].1;
        let vb = b.dxcc[j].1;
        assert(axis(va, Axis::Slots).no_duplicates());
        assert(axis(vb, Axis::Slots).no_duplicates());
        lemma_within_len(va.slots, vb.slots);
    }
    lemma_totals_within(a.dxcc, b.dxcc, Axis::Slots);
}

/// Adding invalid operations to a resolver never adds DXCC credit: with
/// the same entities, prefix rules and load time, where every invalid
/// operation of `r1` is also one of `r2`, building from the same records
/// with `r2` holds no entity, band, mode or slot (worked or confirmed) and
/// no worked call that building with `r1` does not, and so no larger
/// entity count or total on any axis.
pub proof fn law_invalid_operations_only_take_credit_away(
    r1: DxccResolver,
    r2: DxccResolver,
    recs: Seq<Map<Seq<char>, Seq<char>>>,
)
    requires
        r1.ents() == r2.ents(),
        r1.rules() == r2.rules(),
        r1.now() == r2.now(),
        forall|i: int| 0 <= i < r1.ops().len() ==> r2.ops().contains(#[trigger] r1.ops()[i]),
    ensures
        dxcc_credit_within(build_spec(r2, recs).0, build_spec(r1, recs).0),
        count_kept(build_spec(r2, recs).0.dxcc, Set::empty()) <= count_kept(build_spec(r1, recs).0.dxcc, Set::empty()),
        forall|ax: Axis|
            #[trigger] sum_sizes(build_spec(r2, recs).0.dxcc, Set::empty(), ax) <= sum_sizes(
                build_spec(r1, recs).0.dxcc,
                Set::empty(),
                ax,
            ),
{
    lemma_credit_within_build(r1, r2, recs);
    lemma_build_distinct(r1, recs);
    lemma_build_distinct(r2, recs);
    lemma_credit_totals(build_spec(r2, recs).0, build_spec(r1, recs).0);
}

proof fn lemma_credit_within_build(
    r1: DxccResolver,
    r2: DxccResolver,
    recs: Seq<Map<Seq<char>, Seq<char>>>,
)
    requires
        r1.ents() == r2.ents(),
        r1.rules() == r2.rules(),
        r1.now() == r2.now(),
        forall|i: int| 0 <= i < r1.ops().len() ==> r2.ops().contains(#[trigger] r1.ops()[i]),
    ensures
        dxcc_credit_within(build_spec(r2, recs).0, build_spec(r1, recs).0),
    decreases recs.len(),
{
    if recs.len() > 0 {
        let prev = recs.drop_last();
        let m = recs.last();
        lemma_credit_within_build(r1, r2, prev);
        lemma_build_distinct(r1, prev);
        lemma_build_distinct(r2, prev);
        let v1 = build_spec(r1, prev).0;
        let v2 = build_spec(r2, prev).0;
        lemma_step_credit(r1, v1, m);
        lemma_step_credit(r2, v2, m);
        if invalid_contact(r1, m) {
            let i = choose|i: int|
                0 <= i < r1.ops().len() && #[trigger] r1.ops()[i].call@ == unicode_upper(up_field(m, "CALL"@))
                    && covers(r1.ops()[i], qso_unix_spec(m));
            assert(r2.ops().contains(r1.ops()[i]));
            let j = choose|j: int| 0 <= j < r2.ops().len() && r2.ops()[j] == r1.ops()[i];
            assert(r2.ops()[j].call@ == unicode_upper(up_field(m, "CALL"@)));
            assert(invalid_contact(r2, m));
        }
        match credit_of(r2, m) {
            Some(a) => {
                assert(credit_of(r1, m) == Some(a));
                lemma_record_within(v2, v1, a.0, a.1, a.2, a.3, a.4);
            },
            None => {
                if let Some(a) = credit_of(r1, m) {
                    lemma_record_grows(v2, v1, a.0, a.1, a.2, a.3, a.4);
                }
            },
        }
    }
}
/// `record` keeps every entity's status consistent (confirmed inside
/// worked, every slot a worked band with a worked mode), and the contact's
/// entity then holds its `BAND-MODE` slot, confirmed when the contact is.
pub proof fn law_record_keeps_the_matrix_consistent(
    v: MatrixView,
    dxcc: i32,
    band: Seq<char>,
    mode: Seq<char>,
    call: Seq<char>,
    confirmed: bool,
)
    requires
        distinct_keys(v.dxcc),
        all_consistent(v.dxcc),
    ensures
        all_consistent(mv_record(v, dxcc, band, mode, call, confirmed).dxcc),
        get(mv_record(v, dxcc, band, mode, call, confirmed).dxcc, dxcc) matches Some(d)
            && d.slots.contains(slot_key(band, mode))
            && (confirmed ==> d.confirmed_slots.contains(slot_key(band, mode))),
{
    let p = prior(v.dxcc, dxcc, empty_dxcc());
    crate::assoc::lemma_key_index_props(v.dxcc, dxcc);
    if get(v.dxcc, dxcc) is None {
        assert(dxcc_consistent(empty_dxcc()));
    }
    lemma_recorded_consistent(p, band, mode, confirmed);
    let x = dxcc_recorded(p, band, mode, confirmed);
    let n = upsert(v.dxcc, dxcc, x);
    crate::assoc::lemma_upsert_get(v.dxcc, dxcc, x, dxcc);
    assert forall|i: int| 0 <= i < n.len() implies dxcc_consistent(#[trigger] n[i].1) by {
        let k = key_index(v.dxcc, dxcc);
        if 0 <= k < v.dxcc.len() {
            if i != k {
                assert(n[i] == v.dxcc[i]);
            }
        } else if i < v.dxcc.len() {
            assert(n[i] == v.dxcc[i]);
        }
    }
}

/// Leaving entities out never raises a total: every count and sum over
/// the entities outside `skip` is at most the same count over all of
/// them.
pub proof fn law_excluding_never_adds(s: Seq<(i32, DxccView)>, skip: Set<i32>)
    ensures
        count_kept(s, skip) <= count_kept(s, Set::empty()),
        count_confirmed(s, skip) <= count_confirmed(s, Set::empty()),
        sum_sizes(s, skip, Axis::Slots) <= sum_sizes(s, Set::empty(), Axis::Slots),
        sum_sizes(s, skip, Axis::ConfirmedSlots) <= sum_sizes(s, Set::empty(), Axis::ConfirmedSlots),
        sum_challenge(s, skip, Axis::Bands) <= sum_challenge(s, Set::empty(), Axis::Bands),
        sum_challenge(s, skip, Axis::ConfirmedBands) <= sum_challenge(
            s,
            Set::empty(),
            Axis::ConfirmedBands,
        ),
        forall|a: Axis, key: Seq<char>|
            #[trigger] count_holding(s, skip, a, key) <= count_holding(s, Set::empty(), a, key),
    decreases s.len(),
{
    if s.len() > 0 {
        law_excluding_never_adds(s.drop_last(), skip);
    }
    assert forall|a: Axis, key: Seq<char>|
        #[trigger] count_holding(s, skip, a, key) <= count_holding(s, Set::empty(), a, key) by {
        if s.len() > 0 {
            assert(count_holding(s.drop_last(), skip, a, key) <= count_holding(
                s.drop_last(),
                Set::empty(),
                a,
                key,
            ));
        }
    }
}

proof fn lemma_add_new_twice<T>(s: Seq<T>, x: T)
    ensures
        add_new(add_new(s, x), x) == add_new(s, x),
{
    if !s.contains(x) {
        assert(s.push(x)[s.len() as int] == x);
    }
}

/// Merging a LoTW report never touches DXCC: the entities and the worked
/// calls after a merge are exactly those before it.
pub proof fn law_merge_leaves_dxcc_alone(v: MatrixView, recs: Seq<Map<Seq<char>, Seq<char>>>)
    ensures
        merge_spec(v, recs).0.dxcc == v.dxcc,
        merge_spec(v, recs).0.calls == v.calls,
    decreases recs.len(),
{
    if recs.len() > 0 {
        law_merge_leaves_dxcc_alone(v, recs.drop_last());
    }
}

proof fn lemma_upsert_twice<K, V>(s: Seq<(K, V)>, k: K, x: V)
    requires
        crate::assoc::distinct_keys(s),
    ensures
        upsert(upsert(s, k, x), k, x) == upsert(s, k, x),
        get(upsert(s, k, x), k) == Some(x),
        crate::assoc::distinct_keys(upsert(s, k, x)),
{
    crate::assoc::lemma_upsert_get(s, k, x, k);
    crate::assoc::lemma_key_index_props(s, k);
    let t = upsert(s, k, x);
    let i = key_index(s, k);
    if 0 <= i < s.len() {
        crate::assoc::lemma_key_index(t, k, i);
        assert(upsert(t, k, x) =~= t);
    } else {
        crate::assoc::lemma_key_index(t, k, s.len() as int);
        assert(upsert(t, k, x) =~= t);
    }
}

/// Recording the same DXCC contact twice leaves the matrix as recording
/// it once.
pub proof fn law_record_is_idempotent(
    v: MatrixView,
    dxcc: i32,
    band: Seq<char>,
    mode: Seq<char>,
    call: Seq<char>,
    confirmed: bool,
)
    requires
        crate::assoc::distinct_keys(v.dxcc),
    ensures
        mv_record(mv_record(v, dxcc, band, mode, call, confirmed), dxcc, band, mode, call, confirmed)
            == mv_record(v, dxcc, band, mode, call, confirmed),
{
    let x = dxcc_recorded(prior(v.dxcc, dxcc, empty_dxcc()), band, mode, confirmed);
    lemma_upsert_twice(v.dxcc, dxcc, x);
    let once = mv_record(v, dxcc, band, mode, call, confirmed);
    assert(prior(once.dxcc, dxcc, empty_dxcc()) == x);
    let p = prior(v.dxcc, dxcc, empty_dxcc());
    lemma_add_new_twice(p.bands, band);
    lemma_add_new_twice(p.modes, mode);
    lemma_add_new_twice(p.slots, slot_key(band, mode));
    lemma_add_new_twice(p.confirmed_bands, band);
    lemma_add_new_twice(p.confirmed_modes, mode);
    lemma_add_new_twice(p.confirmed_slots, slot_key(band, mode));
    assert(dxcc_recorded(x, band, mode, confirmed) == x);
    lemma_add_new_twice(v.calls, unicode_lower(call));
}

} // verus!
