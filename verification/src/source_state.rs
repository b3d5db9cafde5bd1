//! Demo-backed state for discontinuous playback boundaries. Values keep
//! their presence apart from zero; this is not a per-command correction lane.
use vstd::prelude::*;

verus! {

/// Number of registered source fields.
pub const SOURCE_FIELD_COUNT: usize = 67;

/// Value type of a source field; float values travel as their bit patterns.
#[derive(Clone, Copy, Debug, PartialEq, Eq, Structural)]
pub enum SourceKind {
    F32,
    I32,
    U32,
    Bool,
}

/// A registered source field: its stable name, the demo property it comes
/// from, its value type, and the vector component it picks.
#[derive(Clone, Copy, Debug)]
pub struct SourceField {
    pub name: &'static str,
    pub prop: &'static str,
    pub kind: SourceKind,
    pub component: Option<usize>,
}

/// Value type of field `id` in the registry.
pub open spec fn spec_source_kind(id: int) -> SourceKind {
    if id == 0 || id == 1 || id == 64 {
        SourceKind::U32
    } else if id == 5 || id == 9 || id == 10 || id == 11 || id == 15 || id == 18 || id == 34 || id
        == 36 || id == 54 {
        SourceKind::Bool
    } else if id == 12 || id == 20 || id == 22 || id == 24 || id == 26 || id == 35 || id == 49 || id
        == 51 || id == 52 || id == 53 || id == 55 || id == 57 || id == 62 || id == 65 || id == 66 {
        SourceKind::I32
    } else {
        SourceKind::F32
    }
}

/// Vector component of field `id` in the registry.
pub open spec fn spec_source_component(id: int) -> Option<usize> {
    if 37 <= id <= 48 {
        Some(((id - 37) % 3) as usize)
    } else {
        None
    }
}

/// The registry entry of field `id`, if there is one.
pub fn source_field(id: usize) -> (r: Option<SourceField>)
    ensures
        r is Some <==> id < SOURCE_FIELD_COUNT,
        r matches Some(f) ==> f.kind == spec_source_kind(id as int) && f.component
            == spec_source_component(id as int),
{
    match id {
        0 => Some(SourceField { name: "ServerTick", prop: "server_tick", kind: SourceKind::U32, component: None }),
        1 => Some(SourceField { name: "PlayerTick", prop: "CCSPlayerController.m_nTickBase", kind: SourceKind::U32, component: None }),
        2 => Some(SourceField { name: "DuckRoot", prop: "CCSPlayerPawn.CCSPlayer_MovementServices.m_flDuckRootOffset", kind: SourceKind::F32, component: None }),
        3 => Some(SourceField { name: "DuckView", prop: "CCSPlayerPawn.CCSPlayer_MovementServices.m_flDuckViewOffset", kind: SourceKind::F32, component: None }),
        4 => Some(SourceField { name: "LastDuckTime", prop: "CCSPlayerPawn.CCSPlayer_MovementServices.m_flLastDuckTime", kind: SourceKind::F32, component: None }),
        5 => Some(SourceField { name: "DuckOverride", prop: "CCSPlayerPawn.CCSPlayer_MovementServices.m_bDuckOverride", kind: SourceKind::Bool, component: None }),
        6 => Some(SourceField { name: "Stamina", prop: "CCSPlayerPawn.CCSPlayer_MovementServices.m_flStamina", kind: SourceKind::F32, component: None }),
        7 => Some(SourceField { name: "DuckAmount", prop: "CCSPlayerPawn.CCSPlayer_MovementServices.m_flDuckAmount", kind: SourceKind::F32, component: None }),
        8 => Some(SourceField { name: "DuckSpeed", prop: "CCSPlayerPawn.CCSPlayer_MovementServices.m_flDuckSpeed", kind: SourceKind::F32, component: None }),
        9 => Some(SourceField { name: "Ducked", prop: "CCSPlayerPawn.CCSPlayer_MovementServices.m_bDucked", kind: SourceKind::Bool, component: None }),
        10 => Some(SourceField { name: "Ducking", prop: "CCSPlayerPawn.CCSPlayer_MovementServices.m_bDucking", kind: SourceKind::Bool, component: None }),
        11 => Some(SourceField { name: "DesiresDuck", prop: "CCSPlayerPawn.CCSPlayer_MovementServices.m_bDesiresDuck", kind: SourceKind::Bool, component: None }),
        12 => Some(SourceField { name: "LastJumpTick", prop: "CCSPlayerPawn.CCSPlayer_MovementServices.m_nLastJumpTick", kind: SourceKind::I32, component: None }),
        13 => Some(SourceField { name: "LastJumpFrac", prop: "CCSPlayerPawn.CCSPlayer_MovementServices.m_flLastJumpFrac", kind: SourceKind::F32, component: None }),
        14 => Some(SourceField { name: "LastJumpVelocityZ", prop: "CCSPlayerPawn.CCSPlayer_MovementServices.m_flLastJumpVelocityZ", kind: SourceKind::F32, component: None }),
        15 => Some(SourceField { name: "GroundTopology", prop: "CCSPlayerPawn.CCSPlayer_MovementServices.m_bUsingGroundTopologyOffset", kind: SourceKind::Bool, component: None }),
        16 => Some(SourceField { name: "GroundTopologySmoothing", prop: "CCSPlayerPawn.CCSPlayer_MovementServices.m_flUsingGroundTopologyOffsetTransitionSmoothing", kind: SourceKind::F32, component: None }),
        17 => Some(SourceField { name: "FrictionStashedSpeed", prop: "CCSPlayerPawn.CCSPlayer_MovementServices.m_flFrictionStashedSpeed", kind: SourceKind::F32, component: None }),
        18 => Some(SourceField { name: "UseFrictionStashedSpeed", prop: "CCSPlayerPawn.CCSPlayer_MovementServices.m_bUseFrictionStashedSpeed", kind: SourceKind::Bool, component: None }),
        19 => Some(SourceField { name: "FrictionStashedUntilFrac", prop: "CCSPlayerPawn.CCSPlayer_MovementServices.m_flUseFrictionStashedSpeedUntilFrac", kind: SourceKind::F32, component: None }),
        20 => Some(SourceField { name: "LadderSurface", prop: "CCSPlayerPawn.CCSPlayer_MovementServices.m_nLadderSurfacePropIndex", kind: SourceKind::I32, component: None }),
        21 => Some(SourceField { name: "FallVelocity", prop: "CCSPlayerPawn.CCSPlayer_MovementServices.m_flFallVelocity", kind: SourceKind::F32, component: None }),
        22 => Some(SourceField { name: "LastActualJumpPressTick", prop: "CCSPlayerPawn.CCSPlayer_MovementServices.m_nLastActualJumpPressTick", kind: SourceKind::I32, component: None }),
        23 => Some(SourceField { name: "LastActualJumpPressFrac", prop: "CCSPlayerPawn.CCSPlayer_MovementServices.m_flLastActualJumpPressFrac", kind: SourceKind::F32, component: None }),
        24 => Some(SourceField { name: "LastUsableJumpPressTick", prop: "CCSPlayerPawn.CCSPlayer_MovementServices.m_nLastUsableJumpPressTick", kind: SourceKind::I32, component: None }),
        25 => Some(SourceField { name: "LastUsableJumpPressFrac", prop: "CCSPlayerPawn.CCSPlayer_MovementServices.m_flLastUsableJumpPressFrac", kind: SourceKind::F32, component: None }),
        26 => Some(SourceField { name: "LastLandedTick", prop: "CCSPlayerPawn.CCSPlayer_MovementServices.m_nLastLandedTick", kind: SourceKind::I32, component: None }),
        27 => Some(SourceField { name: "LastLandedFrac", prop: "CCSPlayerPawn.CCSPlayer_MovementServices.m_flLastLandedFrac", kind: SourceKind::F32, component: None }),
        28 => Some(SourceField { name: "LastLandedVelocityX", prop: "CCSPlayerPawn.CCSPlayer_MovementServices.m_flLastLandedVelocityX", kind: SourceKind::F32, component: None }),
        29 => Some(SourceField { name: "LastLandedVelocityY", prop: "CCSPlayerPawn.CCSPlayer_MovementServices.m_flLastLandedVelocityY", kind: SourceKind::F32, component: None }),
        30 => Some(SourceField { name: "LastLandedVelocityZ", prop: "CCSPlayerPawn.CCSPlayer_MovementServices.m_flLastLandedVelocityZ", kind: SourceKind::F32, component: None }),
        31 => Some(SourceField { name: "VelocityModifier", prop: "CCSPlayerPawn.m_flVelocityModifier", kind: SourceKind::F32, component: None }),
        32 => Some(SourceField { name: "Friction", prop: "CCSPlayerPawn.m_flFriction", kind: SourceKind::F32, component: None }),
        33 => Some(SourceField { name: "GravityScale", prop: "CCSPlayerPawn.m_flGravityScale", kind: SourceKind::F32, component: None }),
        34 => Some(SourceField { name: "GravityDisabled", prop: "CCSPlayerPawn.m_bGravityDisabled", kind: SourceKind::Bool, component: None }),
        35 => Some(SourceField { name: "ShotsFired", prop: "CCSPlayerPawn.m_iShotsFired", kind: SourceKind::I32, component: None }),
        36 => Some(SourceField { name: "Scoped", prop: "CCSPlayerPawn.m_bIsScoped", kind: SourceKind::Bool, component: None }),
        37 => Some(SourceField { name: "BaseVelocityX", prop: "CCSPlayerPawn.m_vecBaseVelocity", kind: SourceKind::F32, component: Some(0usize) }),
        38 => Some(SourceField { name: "BaseVelocityY", prop: "CCSPlayerPawn.m_vecBaseVelocity", kind: SourceKind::F32, component: Some(1usize) }),
        39 => Some(SourceField { name: "BaseVelocityZ", prop: "CCSPlayerPawn.m_vecBaseVelocity", kind: SourceKind::F32, component: Some(2usize) }),
        40 => Some(SourceField { name: "PredictableAngleX", prop: "CCSPlayerPawn.CCSPlayer_AimPunchServices.m_predictableBaseAngle", kind: SourceKind::F32, component: Some(0usize) }),
        41 => Some(SourceField { name: "PredictableAngleY", prop: "CCSPlayerPawn.CCSPlayer_AimPunchServices.m_predictableBaseAngle", kind: SourceKind::F32, component: Some(1usize) }),
        42 => Some(SourceField { name: "PredictableAngleZ", prop: "CCSPlayerPawn.CCSPlayer_AimPunchServices.m_predictableBaseAngle", kind: SourceKind::F32, component: Some(2usize) }),
        43 => Some(SourceField { name: "PredictableAngleVelX", prop: "CCSPlayerPawn.CCSPlayer_AimPunchServices.m_predictableBaseAngleVel", kind: SourceKind::F32, component: Some(0usize) }),
        44 => Some(SourceField { name: "PredictableAngleVelY", prop: "CCSPlayerPawn.CCSPlayer_AimPunchServices.m_predictableBaseAngleVel", kind: SourceKind::F32, component: Some(1usize) }),
        45 => Some(SourceField { name: "PredictableAngleVelZ", prop: "CCSPlayerPawn.CCSPlayer_AimPunchServices.m_predictableBaseAngleVel", kind: SourceKind::F32, component: Some(2usize) }),
        46 => Some(SourceField { name: "UnpredictableAngleX", prop: "CCSPlayerPawn.CCSPlayer_AimPunchServices.m_unpredictableBaseAngle", kind: SourceKind::F32, component: Some(0usize) }),
        47 => Some(SourceField { name: "UnpredictableAngleY", prop: "CCSPlayerPawn.CCSPlayer_AimPunchServices.m_unpredictableBaseAngle", kind: SourceKind::F32, component: Some(1usize) }),
        48 => Some(SourceField { name: "UnpredictableAngleZ", prop: "CCSPlayerPawn.CCSPlayer_AimPunchServices.m_unpredictableBaseAngle", kind: SourceKind::F32, component: Some(2usize) }),
        49 => Some(SourceField { name: "PredictableTick", prop: "CCSPlayerPawn.CCSPlayer_AimPunchServices.m_predictableBaseTick", kind: SourceKind::I32, component: None }),
        50 => Some(SourceField { name: "PredictableTickFrac", prop: "CCSPlayerPawn.CCSPlayer_AimPunchServices.m_predictableBaseTickInterpAmount", kind: SourceKind::F32, component: None }),
        51 => Some(SourceField { name: "UnpredictableTick", prop: "CCSPlayerPawn.CCSPlayer_AimPunchServices.m_unpredictableBaseTick", kind: SourceKind::I32, component: None }),
        52 => Some(SourceField { name: "Clip1", prop: "Weapon.m_iClip1", kind: SourceKind::I32, component: None }),
        53 => Some(SourceField { name: "Clip2", prop: "Weapon.m_iClip2", kind: SourceKind::I32, component: None }),
        54 => Some(SourceField { name: "InReload", prop: "Weapon.m_bInReload", kind: SourceKind::Bool, component: None }),
        55 => Some(SourceField { name: "NextPrimaryTick", prop: "Weapon.m_nNextPrimaryAttackTick", kind: SourceKind::I32, component: None }),
        56 => Some(SourceField { name: "NextPrimaryFrac", prop: "Weapon.m_flNextPrimaryAttackTickRatio", kind: SourceKind::F32, component: None }),
        57 => Some(SourceField { name: "NextSecondaryTick", prop: "Weapon.m_nNextSecondaryAttackTick", kind: SourceKind::I32, component: None }),
        58 => Some(SourceField { name: "NextSecondaryFrac", prop: "Weapon.m_flNextSecondaryAttackTickRatio", kind: SourceKind::F32, component: None }),
        59 => Some(SourceField { name: "RecoilIndex", prop: "Weapon.m_flRecoilIndex", kind: SourceKind::F32, component: None }),
        60 => Some(SourceField { name: "AccuracyPenalty", prop: "Weapon.m_fAccuracyPenalty", kind: SourceKind::F32, component: None }),
        61 => Some(SourceField { name: "LastShotTime", prop: "Weapon.m_fLastShotTime", kind: SourceKind::F32, component: None }),
        62 => Some(SourceField { name: "BurstShotsRemaining", prop: "Weapon.m_iBurstShotsRemaining", kind: SourceKind::I32, component: None }),
        63 => Some(SourceField { name: "NextAttack", prop: "CCSPlayerPawn.CCSPlayer_WeaponServices.m_flNextAttack", kind: SourceKind::F32, component: None }),
        64 => Some(SourceField { name: "ActiveWeaponHandle", prop: "CCSPlayerPawn.CCSPlayer_WeaponServices.m_hActiveWeapon", kind: SourceKind::U32, component: None }),
        65 => Some(SourceField { name: "ReserveAmmoPrimary", prop: "Weapon.m_pReserveAmmo", kind: SourceKind::I32, component: None }),
        66 => Some(SourceField { name: "ReserveAmmoSecondary", prop: "weapon_reserve_ammo_secondary", kind: SourceKind::I32, component: None }),
        _ => None,
    }
}

/// Fields that playback consumes. Ids 0, 52..=54 and 65..=66 stay reserved
/// and readable for old archives but are owned by the live server.
pub open spec fn spec_is_playback_field(id: int) -> bool {
    0 <= id < SOURCE_FIELD_COUNT && !(id == 0 || (52 <= id <= 54) || (65 <= id <= 66))
}

pub fn is_playback_field(id: usize) -> (r: bool)
    ensures
        r == spec_is_playback_field(id as int),
{
    id < SOURCE_FIELD_COUNT && !(id == 0 || (52 <= id && id <= 54) || (65 <= id && id <= 66))
}

/// Whether bit `bit` of `word` is set.
pub open spec fn bit_set(word: u32, bit: u32) -> bool {
    word & (1u32 << bit) != 0u32
}

proof fn lemma_bit_set_after_or(x: u32, k: u32, j: u32)
    requires
        k < 32,
        j < 32,
    ensures
        bit_set(x | (1u32 << k), j) == (j == k || bit_set(x, j)),
{
    assert(((x | (1u32 << k)) & (1u32 << j) != 0u32) == (j == k || (x & (1u32 << j) != 0u32)))
        by (bit_vector)
        requires
            k < 32,
            j < 32,
    ;
}

proof fn lemma_zero_has_no_bits(j: u32)
    requires
        j < 32,
    ensures
        !bit_set(0u32, j),
{
    assert((0u32 & (1u32 << j)) == 0u32) by (bit_vector);
}

/// Per-field values with presence kept apart from the value.
#[derive(Clone, Debug)]
pub struct SourceState {
    values: [u32; 96],
    present: [u32; 3],
}

impl SourceState {
    /// Value of field `id`, if it is registered and present.
    pub closed spec fn slot(self, id: int) -> Option<u32> {
        if 0 <= id < SOURCE_FIELD_COUNT && bit_set(self.present[id / 32], (id % 32) as u32) {
            Some(self.values[id])
        } else {
            None
        }
    }

    /// The state as one optional value per registered field.
    pub closed spec fn spec_view(self) -> Seq<Option<u32>> {
        Seq::new(SOURCE_FIELD_COUNT as nat, |i: int| self.slot(i))
    }

    pub fn get(&self, id: usize) -> (r: Option<u32>)
        ensures
            self@.len() == SOURCE_FIELD_COUNT,
            r == (if id < SOURCE_FIELD_COUNT {
                self@[id as int]
            } else {
                None
            }),
    {
        if id < SOURCE_FIELD_COUNT && self.present[id / 32] & (1u32 << ((id % 32) as u32)) != 0 {
            Some(self.values[id])
        } else {
            None
        }
    }

    pub fn set(&mut self, id: usize, value: u32)
        requires
            id < SOURCE_FIELD_COUNT,
        ensures
            final(self)@ == old(self)@.update(id as int, Some(value)),
            old(self)@.len() == SOURCE_FIELD_COUNT,
            final(self)@.len() == SOURCE_FIELD_COUNT,
    {
        let ghost before = *self;
        let w = id / 32;
        let b = (id % 32) as u32;
        self.values[id] = value;
        self.present[w] = self.present[w] | (1u32 << b);
        proof {
            assert forall|i: int| 0 <= i < SOURCE_FIELD_COUNT implies #[trigger] self.slot(i) == (
            if i == id {
                Some(value)
            } else {
                before.slot(i)
            }) by {
                if i / 32 == w as int {
                    lemma_bit_set_after_or(before.present[w as int], b, (i % 32) as u32);
                }
            }
            assert(self@ =~= before@.update(id as int, Some(value)));
        }
    }
}

/// Every state has one slot per registered field.
pub proof fn lemma_state_len(state: SourceState)
    ensures
        state@.len() == SOURCE_FIELD_COUNT,
{
}

/// Reading a field after writing it gives back the written value, zero
/// included, and writing one field leaves every other field as it was.
pub proof fn law_read_after_write(state: SourceState, id: int, value: u32, other: int)
    requires
        0 <= id < SOURCE_FIELD_COUNT,
        0 <= other < SOURCE_FIELD_COUNT,
        other != id,
    ensures
        state@.update(id, Some(value))[id] == Some(value),
        state@.update(id, Some(value))[other] == state@[other],
        state@.update(id, Some(value)).len() == state@.len(),
{
}

impl View for SourceState {
    type V = Seq<Option<u32>>;

    open spec fn view(&self) -> Seq<Option<u32>> {
        self.spec_view()
    }
}

impl Default for SourceState {
    fn default() -> (r: SourceState)
        ensures
            r@ == Seq::new(SOURCE_FIELD_COUNT as nat, |i: int| None::<u32>),
            r@.len() == SOURCE_FIELD_COUNT,
    {
        let r = SourceState { values: [0u32; 96], present: [0u32; 3] };
        proof {
            assert forall|i: int| 0 <= i < SOURCE_FIELD_COUNT implies #[trigger] r.slot(i)
                == None::<u32> by {
                lemma_zero_has_no_bits((i % 32) as u32);
            }
            assert(r@ =~= Seq::new(SOURCE_FIELD_COUNT as nat, |i: int| None::<u32>));
        }
        r
    }
}

/// One recorded change of a source field.
#[derive(Clone, Copy, Debug, PartialEq, Eq, Structural)]
pub struct SourceStateChange {
    pub tick_index: u32,
    pub field_id: u32,
    pub value_bits: u32,
    /// Bit 0: presence; bits 1..24: consecutive PlayerTick run length minus one.
    pub present: u32,
}

impl Default for SourceStateChange {
    fn default() -> (r: SourceStateChange)
        ensures
            r == (SourceStateChange { tick_index: 0, field_id: 0, value_bits: 0, present: 0 }),
    {
        SourceStateChange { tick_index: 0, field_id: 0, value_bits: 0, present: 0 }
    }
}

/// Whether a 32-bit float pattern is finite (its exponent is not all ones).
pub open spec fn f32_bits_finite(bits: u32) -> bool {
    bits & 0x7f80_0000u32 != 0x7f80_0000u32
}

impl SourceStateChange {
    pub open spec fn spec_run_length(self) -> int {
        self.present / 2 + 1
    }

    pub open spec fn spec_is_present(self) -> bool {
        self.present % 2 == 1
    }

    /// Whether the change is well formed for a record of `tick_count` ticks.
    pub open spec fn spec_valid(self, tick_count: int) -> bool {
        &&& self.field_id < SOURCE_FIELD_COUNT
        &&& self.tick_index < tick_count
        &&& self.present <= 0x01ff_ffff
        &&& (self.spec_run_length() == 1 || (self.field_id == 1 && self.spec_is_present()))
        &&& self.tick_index + self.spec_run_length() <= tick_count
        &&& if !self.spec_is_present() {
            self.value_bits == 0
        } else {
            match spec_source_kind(self.field_id as int) {
                SourceKind::F32 => f32_bits_finite(self.value_bits),
                SourceKind::Bool => self.value_bits <= 1,
                _ => true,
            }
        }
    }

    pub fn run_length(&self) -> (r: u32)
        ensures
            r == self.spec_run_length(),
    {
        let p = self.present;
        assert(p >> 1u32 == p / 2) by (bit_vector);
        (p >> 1) + 1
    }

    pub fn is_present(&self) -> (r: bool)
        ensures
            r == self.spec_is_present(),
    {
        let p = self.present;
        assert((p & 1u32 != 0u32) == (p % 2 == 1)) by (bit_vector);
        p & 1 != 0
    }

    pub fn valid(&self, tick_count: usize) -> (r: bool)
        ensures
            r == self.spec_valid(tick_count as int),
    {
        let field = match source_field(self.field_id as usize) {
            Some(field) => field,
            None => return false,
        };
        if !((self.tick_index as usize) < tick_count) {
            return false;
        }
        if !(self.present <= 0x01ff_ffff) {
            return false;
        }
        let run = self.run_length();
        if !(run == 1 || (self.field_id == 1 && self.is_present())) {
            return false;
        }
        if !((self.tick_index as u64) + (run as u64) <= tick_count as u64) {
            return false;
        }
        if !self.is_present() {
            self.value_bits == 0
        } else {
            match field.kind {
                SourceKind::F32 => self.value_bits & 0x7f80_0000u32 != 0x7f80_0000u32,
                SourceKind::Bool => self.value_bits <= 1,
                _ => true,
            }
        }
    }
}

/// The change that records field `id` taking `value` at `tick`.
pub open spec fn change_of(id: int, value: Option<u32>, tick: u32) -> SourceStateChange {
    SourceStateChange {
        tick_index: tick,
        field_id: id as u32,
        value_bits: match value {
            Some(v) => v,
            None => 0,
        },
        present: if value is Some {
            1
        } else {
            0
        },
    }
}

/// Changes of the playback fields `2..hi` that differ between two states, in id order.
pub open spec fn field_changes(
    prev: Seq<Option<u32>>,
    next: Seq<Option<u32>>,
    tick: u32,
    hi: int,
) -> Seq<SourceStateChange>
    decreases hi,
{
    if hi <= 2 {
        seq![]
    } else {
        let front = field_changes(prev, next, tick, hi - 1);
        if spec_is_playback_field(hi - 1) && prev[hi - 1] != next[hi - 1] {
            front.push(change_of(hi - 1, next[hi - 1], tick))
        } else {
            front
        }
    }
}

/// The field changes between two states list only playback fields whose
/// value differs, in strictly increasing field order, each with the new
/// value (0 and not present when the field is absent) at the given tick.
pub proof fn law_field_changes_are_ordered_differences(
    prev: Seq<Option<u32>>,
    next: Seq<Option<u32>>,
    tick: u32,
    hi: int,
)
    requires
        hi <= SOURCE_FIELD_COUNT,
    ensures
        forall|a: int, b: int| 0 <= a < b < field_changes(prev, next, tick, hi).len()
            ==> (#[trigger] field_changes(prev, next, tick, hi)[a]).field_id < (#[trigger] field_changes(prev, next, tick, hi)[b]).field_id,
        forall|a: int| 0 <= a < field_changes(prev, next, tick, hi).len() ==> {
            let c = #[trigger] field_changes(prev, next, tick, hi)[a];
            &&& 2 <= c.field_id < hi
            &&& spec_is_playback_field(c.field_id as int)
            &&& prev[c.field_id as int] != next[c.field_id as int]
            &&& c == change_of(c.field_id as int, next[c.field_id as int], tick)
        },
    decreases hi,
{
    if hi > 2 {
        law_field_changes_are_ordered_differences(prev, next, tick, hi - 1);
        let front = field_changes(prev, next, tick, hi - 1);
        let full = field_changes(prev, next, tick, hi);
        if spec_is_playback_field(hi - 1) && prev[hi - 1] != next[hi - 1] {
            assert(full == front.push(change_of(hi - 1, next[hi - 1], tick)));
            assert(full[front.len() as int].field_id == (hi - 1) as u32);
            assert forall|a: int| 0 <= a < full.len() implies {
                let c = #[trigger] full[a];
                &&& 2 <= c.field_id < hi
                &&& spec_is_playback_field(c.field_id as int)
                &&& prev[c.field_id as int] != next[c.field_id as int]
                &&& c == change_of(c.field_id as int, next[c.field_id as int], tick)
            } by {
                if a < front.len() {
                    assert(full[a] == front[a]);
                }
            }
            assert forall|a: int, b: int| 0 <= a < b < full.len() implies (#[trigger] full[a]).field_id < (#[trigger] full[b]).field_id by {
                assert(full[a] == front[a]);
                if b < front.len() {
                    assert(full[b] == front[b]);
                }
            }
        } else {
            assert(full == front);
        }
    }
}

/// Equal states have no field changes, so a step between equal states
/// records nothing and keeps the open clock run.
pub proof fn law_equal_states_change_nothing(state: Seq<Option<u32>>, tick: u32, hi: int)
    ensures
        field_changes(state, state, tick, hi).len() == 0,
    decreases hi,
{
    if hi > 2 {
        law_equal_states_change_nothing(state, tick, hi - 1);
    }
}

/// Whether a new clock value continues the run recorded at `last`: the run
/// is present, shorter than 2^24, ends right before `tick`, and counts up to `bits`.
pub open spec fn clock_run_extends(
    out: Seq<SourceStateChange>,
    last: Option<usize>,
    tick: u32,
    bits: u32,
) -> bool {
    match last {
        Some(i) => {
            &&& i < out.len()
            &&& out[i as int].spec_is_present()
            &&& out[i as int].spec_run_length() < 0x0100_0000
            &&& out[i as int].tick_index + out[i as int].spec_run_length() == tick
            &&& (out[i as int].value_bits + out[i as int].spec_run_length()) % 0x1_0000_0000 == bits
        },
        None => false,
    }
}

/// Appends the changes from `previous` to `next` at `tick_index`. A changed
/// clock (field 1) that continues the open run at `last_clock` lengthens that
/// run instead of adding a change; a clock change that does not continue it
/// opens a new run, whose position is kept in `last_clock`.
pub fn changes_between(
    previous: &SourceState,
    next: &SourceState,
    tick_index: u32,
    out: &mut Vec<SourceStateChange>,
    last_clock: &mut Option<usize>,
)
    requires
        *old(last_clock) matches Some(i) ==> i < old(out).len(),
        old(out).len() + SOURCE_FIELD_COUNT <= usize::MAX,
    ensures
        *final(last_clock) matches Some(i) ==> i < final(out).len(),
        ({
            let clock_changed = previous@[1] != next@[1];
            let rest = field_changes(previous@, next@, tick_index, SOURCE_FIELD_COUNT as int);
            if clock_changed && next@[1] is Some && clock_run_extends(
                old(out)@,
                *old(last_clock),
                tick_index,
                next@[1]->0,
            ) {
                let i = old(last_clock)->0 as int;
                &&& final(out)@ == old(out)@.update(
                    i,
                    SourceStateChange { present: (old(out)@[i].present + 2) as u32, ..old(out)@[i] },
                ) + rest
                &&& *final(last_clock) == *old(last_clock)
            } else if clock_changed {
                &&& final(out)@ == old(out)@.push(change_of(1, next@[1], tick_index)) + rest
                &&& *final(last_clock) == Some(old(out)@.len() as usize)
            } else {
                &&& final(out)@ == old(out)@ + rest
                &&& *final(last_clock) == *old(last_clock)
            }
        }),
{
    let ghost start = out@;
    let ghost start_clock = *last_clock;
    let value = next.get(1);
    let prev_value = previous.get(1);
    if prev_value != value {
        let mut extended = false;
        if let (Some(bits), Some(index)) = (value, *last_clock) {
            let last = out[index];
            let length = last.run_length();
            if last.is_present() && length < 0x0100_0000 && (last.tick_index as u64) + (
            length as u64) == tick_index as u64 && last.value_bits.wrapping_add(length) == bits {
                assert(last.present <= u32::MAX - 2) by {
                    assert(last.present / 2 + 1 < 0x0100_0000);
                }
                let updated = SourceStateChange { present: last.present + 2, ..last };
                out.set(index, updated);
                extended = true;
            }
        }
        if !extended {
            *last_clock = Some(out.len());
            out.push(
                SourceStateChange {
                    tick_index,
                    field_id: 1,
                    value_bits: match value {
                        Some(v) => v,
                        None => 0,
                    },
                    present: if value.is_some() {
                        1
                    } else {
                        0
                    },
                },
            );
        }
    }
    let ghost head = out@;
    let mut id: usize = 2;
    while id < SOURCE_FIELD_COUNT
        invariant
            2 <= id <= SOURCE_FIELD_COUNT,
            out@ == head + field_changes(previous@, next@, tick_index, id as int),
            head.len() <= start.len() + 1,
            start.len() + SOURCE_FIELD_COUNT <= usize::MAX,
            field_changes(previous@, next@, tick_index, id as int).len() <= id,
        decreases SOURCE_FIELD_COUNT - id,
    {
        if is_playback_field(id) {
            let v = next.get(id);
            if previous.get(id) != v {
                out.push(
                    SourceStateChange {
                        tick_index,
                        field_id: id as u32,
                        value_bits: match v {
                            Some(x) => x,
                            None => 0,
                        },
                        present: if v.is_some() {
                            1
                        } else {
                            0
                        },
                    },
                );
            }
        }
        id = id + 1;
        assert(out@ =~= head + field_changes(previous@, next@, tick_index, id as int));
    }
}

} // verus!
