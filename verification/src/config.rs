use vstd::prelude::*;

verus! {

/// The DSU protocol exposes four controller ports.
pub const MAX_DSU_SLOTS: usize = 4;

/// Bit pattern of the single-precision value 1.0, the default gyro
/// sensitivity multiplier.  The library carries the sensitivity as its
/// IEEE-754 bit pattern and never interprets it.
pub const GYRO_SENSITIVITY_DEFAULT_BITS: u32 = 0x3F80_0000;

/// Default UDP port of a Cemuhook DSU server.
pub const DEFAULT_PORT: u16 = 26760;

/// One output axis: which raw axis (0 = x, 1 = y, 2 = z) it reads, and
/// whether the value is negated.
#[derive(Clone, Copy, Debug, PartialEq, Eq, Structural)]
pub struct Axis {
    pub source: u8,
    pub invert: bool,
}

impl Axis {
    pub fn new(source: u8, invert: bool) -> (r: Self)
        ensures
            r.source == source,
            r.invert == invert,
    {
        Axis { source, invert }
    }

    /// The raw axis index actually read: sources past z read z.
    pub open spec fn spec_source_index(self) -> int {
        if self.source <= 2 {
            self.source as int
        } else {
            2
        }
    }

    pub fn source_index(&self) -> (r: usize)
        ensures
            r == self.spec_source_index(),
            r <= 2,
    {
        if self.source <= 2 {
            self.source as usize
        } else {
            2
        }
    }
}

/// Mapping of the three output axes onto raw sensor axes.
#[derive(Clone, Copy, Debug, PartialEq, Eq, Structural)]
pub struct AxisMap {
    pub x: Axis,
    pub y: Axis,
    pub z: Axis,
}

/// Gyro mapping matched to Eden/Yuzu Cemuhook UDP, which reads incoming DSU
/// as (pitch, roll, -yaw).
pub open spec fn gyro_map_default() -> AxisMap {
    AxisMap {
        x: Axis { source: 0, invert: false },
        y: Axis { source: 2, invert: true },
        z: Axis { source: 1, invert: false },
    }
}

/// Accelerometer mapping for the same remap: (accel.x, -accel.z, accel.y).
pub open spec fn accel_map_default() -> AxisMap {
    AxisMap {
        x: Axis { source: 0, invert: true },
        y: Axis { source: 2, invert: true },
        z: Axis { source: 1, invert: false },
    }
}

impl AxisMap {
    pub fn gyro_default() -> (r: Self)
        ensures
            r == gyro_map_default(),
    {
        AxisMap { x: Axis::new(0, false), y: Axis::new(2, true), z: Axis::new(1, false) }
    }

    pub fn accel_default() -> (r: Self)
        ensures
            r == accel_map_default(),
    {
        AxisMap { x: Axis::new(0, true), y: Axis::new(2, true), z: Axis::new(1, false) }
    }
}

impl Default for AxisMap {
    fn default() -> (r: Self)
        ensures
            r == gyro_map_default(),
    {
        AxisMap::gyro_default()
    }
}

/// User configuration.  `slot_assignments` holds optional, persistent
/// controller-to-DSU-slot preferences: entry `i` is the stable id of the
/// controller pinned to slot `i`, and zero leaves the slot automatic.
#[derive(Clone, Copy, Debug, PartialEq, Eq)]
pub struct Config {
    pub port: u16,
    pub gyro: AxisMap,
    pub accel: AxisMap,
    /// IEEE-754 bit pattern of the gyro sensitivity multiplier.
    pub gyro_sensitivity_bits: u32,
    pub slot_assignments: [u64; 4],
    pub start_minimized: bool,
    pub expose_to_network: bool,
    pub close_to_tray: bool,
    pub auto_calibrate: bool,
}

/// The configuration used when none is stored.
pub open spec fn is_default_config(c: Config) -> bool {
    &&& c.port == DEFAULT_PORT
    &&& c.gyro == gyro_map_default()
    &&& c.accel == accel_map_default()
    &&& c.gyro_sensitivity_bits == GYRO_SENSITIVITY_DEFAULT_BITS
    &&& c.slot_assignments@ == seq![0u64, 0u64, 0u64, 0u64]
    &&& !c.start_minimized
    &&& !c.expose_to_network
    &&& !c.close_to_tray
    &&& c.auto_calibrate
}

/// The first index at or after `from` whose entry is `id`.
pub open spec fn first_index_from(s: Seq<u64>, id: u64, from: int) -> Option<int>
    decreases s.len() - from,
{
    if from < 0 || from >= s.len() {
        None
    } else if s[from] == id {
        Some(from)
    } else {
        first_index_from(s, id, from + 1)
    }
}

/// The slot a controller is pinned to: the first slot holding its id.
/// The id zero means "automatic" and is never pinned.
pub open spec fn slot_of(assignments: Seq<u64>, id: u64) -> Option<u8> {
    if id == 0 {
        None
    } else {
        match first_index_from(assignments, id, 0) {
            Some(i) => Some(i as u8),
            None => None,
        }
    }
}

/// Assignments after pinning `id` to `slot`: the old pin of `id` is
/// released and whatever was pinned to `slot` is replaced.
pub open spec fn assigned(assignments: Seq<u64>, id: u64, slot: int) -> Seq<u64> {
    Seq::new(
        assignments.len(),
        |i: int|
            if i == slot {
                id
            } else if assignments[i] == id {
                0
            } else {
                assignments[i]
            },
    )
}

/// Assignments after releasing every pin of `id`.
pub open spec fn cleared(assignments: Seq<u64>, id: u64) -> Seq<u64> {
    Seq::new(assignments.len(), |i: int| if assignments[i] == id { 0 } else { assignments[i] })
}

/// No controller id other than zero appears twice.
pub open spec fn pins_unique(assignments: Seq<u64>) -> bool {
    forall|i: int, j: int|
        0 <= i < assignments.len() && 0 <= j < assignments.len() && i != j && assignments[i]
            != 0 ==> assignments[i] != assignments[j]
}

/// Characterizes `first_index_from`.
pub proof fn lemma_first_index_from(s: Seq<u64>, id: u64, from: int)
    requires
        0 <= from,
    ensures
        match first_index_from(s, id, from) {
            Some(k) => from <= k < s.len() && s[k] == id && forall|j: int|
                from <= j < k ==> s[j] != id,
            None => forall|j: int| from <= j < s.len() ==> s[j] != id,
        },
    decreases s.len() - from,
{
    if from < s.len() && s[from] != id {
        lemma_first_index_from(s, id, from + 1);
    }
}

impl Default for Config {
    fn default() -> (r: Self)
        ensures
            is_default_config(r),
    {
        let r = Config {
            port: DEFAULT_PORT,
            gyro: AxisMap::gyro_default(),
            accel: AxisMap::accel_default(),
            gyro_sensitivity_bits: GYRO_SENSITIVITY_DEFAULT_BITS,
            slot_assignments: [0u64; 4],
            start_minimized: false,
            expose_to_network: false,
            close_to_tray: false,
            auto_calibrate: true,
        };
        assert(r.slot_assignments@ =~= seq![0u64, 0u64, 0u64, 0u64]);
        r
    }
}

impl Config {
    /// The DSU slot the controller is pinned to, if any.
    pub fn slot_for_controller(&self, controller_id: u64) -> (r: Option<u8>)
        ensures
            r == slot_of(self.slot_assignments@, controller_id),
    {
        if controller_id == 0 {
            return None;
        }
        let mut i: usize = 0;
        while i < MAX_DSU_SLOTS
            invariant
                0 <= i <= MAX_DSU_SLOTS,
                controller_id != 0,
                first_index_from(self.slot_assignments@, controller_id, 0) == first_index_from(
                    self.slot_assignments@,
                    controller_id,
                    i as int,
                ),
            decreases MAX_DSU_SLOTS - i,
        {
            if self.slot_assignments[i] == controller_id {
                return Some(i as u8);
            }
            i = i + 1;
        }
        None
    }

    /// Pins a controller to a DSU slot.  A controller occupies at most one
    /// preferred slot: moving it releases its old preference, and a
    /// controller pinned to the destination becomes automatic.  A slot past
    /// the last DSU slot changes nothing.
    pub fn assign_controller_to_slot(&mut self, controller_id: u64, slot: u8)
        ensures
            slot as usize >= MAX_DSU_SLOTS ==> *final(self) == *old(self),
            (slot as usize) < MAX_DSU_SLOTS ==> final(self).slot_assignments@ == assigned(
                old(self).slot_assignments@,
                controller_id,
                slot as int,
            ),
            final(self).port == old(self).port,
            final(self).gyro == old(self).gyro,
            final(self).accel == old(self).accel,
            final(self).gyro_sensitivity_bits == old(self).gyro_sensitivity_bits,
            final(self).start_minimized == old(self).start_minimized,
            final(self).expose_to_network == old(self).expose_to_network,
            final(self).close_to_tray == old(self).close_to_tray,
            final(self).auto_calibrate == old(self).auto_calibrate,
    {
        if slot as usize >= MAX_DSU_SLOTS {
            return ;
        }
        self.clear_controller_assignment(controller_id);
        self.slot_assignments[slot as usize] = controller_id;
        assert(self.slot_assignments@ =~= assigned(
            old(self).slot_assignments@,
            controller_id,
            slot as int,
        ));
    }

    /// Releases every slot preference held by the controller.
    pub fn clear_controller_assignment(&mut self, controller_id: u64)
        ensures
            final(self).slot_assignments@ == cleared(old(self).slot_assignments@, controller_id),
            final(self).port == old(self).port,
            final(self).gyro == old(self).gyro,
            final(self).accel == old(self).accel,
            final(self).gyro_sensitivity_bits == old(self).gyro_sensitivity_bits,
            final(self).start_minimized == old(self).start_minimized,
            final(self).expose_to_network == old(self).expose_to_network,
            final(self).close_to_tray == old(self).close_to_tray,
            final(self).auto_calibrate == old(self).auto_calibrate,
    {
        let mut i: usize = 0;
        while i < MAX_DSU_SLOTS
            invariant
                0 <= i <= MAX_DSU_SLOTS,
                forall|k: int|
                    0 <= k < i ==> self.slot_assignments@[k] == (if old(
                        self,
                    ).slot_assignments@[k] == controller_id {
                        0
                    } else {
                        old(self).slot_assignments@[k]
                    }),
                forall|k: int|
                    i <= k < MAX_DSU_SLOTS ==> self.slot_assignments@[k] == old(
                        self,
                    ).slot_assignments@[k],
                self.port == old(self).port,
                self.gyro == old(self).gyro,
                self.accel == old(self).accel,
                self.gyro_sensitivity_bits == old(self).gyro_sensitivity_bits,
                self.start_minimized == old(self).start_minimized,
                self.expose_to_network == old(self).expose_to_network,
                self.close_to_tray == old(self).close_to_tray,
                self.auto_calibrate == old(self).auto_calibrate,
            decreases MAX_DSU_SLOTS - i,
        {
            if self.slot_assignments[i] == controller_id {
                self.slot_assignments[i] = 0;
            }
            i = i + 1;
        }
        assert(self.slot_assignments@ =~= cleared(old(self).slot_assignments@, controller_id));
    }
}

/// Pinning a controller to a slot makes that slot the one it is found in.
pub proof fn law_assigned_slot_is_found(assignments: Seq<u64>, id: u64, slot: int)
    requires
        id != 0,
        0 <= slot < assignments.len(),
        assignments.len() <= MAX_DSU_SLOTS,
    ensures
        slot_of(assigned(assignments, id, slot), id) == Some(slot as u8),
{
    let t = assigned(assignments, id, slot);
    lemma_first_index_from(t, id, 0);
    match first_index_from(t, id, 0) {
        Some(k) => {
            if k != slot {
                assert(t[k] != id);
            }
        },
        None => {
            assert(t[slot] == id);
        },
    }
}

/// After pinning, the controller occupies exactly one slot.
pub proof fn law_assigned_pin_is_single(assignments: Seq<u64>, id: u64, slot: int)
    requires
        id != 0,
        0 <= slot < assignments.len(),
    ensures
        forall|i: int|
            0 <= i < assignments.len() ==> (assigned(assignments, id, slot)[i] == id <==> i
                == slot),
{
}

/// After clearing, the controller is pinned nowhere.
pub proof fn law_cleared_pin_is_gone(assignments: Seq<u64>, id: u64)
    ensures
        slot_of(cleared(assignments, id), id) is None,
        forall|i: int|
            0 <= i < assignments.len() && id != 0 ==> cleared(assignments, id)[i] != id,
{
    let t = cleared(assignments, id);
    lemma_first_index_from(t, id, 0);
    if id != 0 {
        match first_index_from(t, id, 0) {
            Some(k) => {
                assert(t[k] != id);
            },
            None => {},
        }
    }
}

/// Pinning and clearing never make a controller appear in two slots.
pub proof fn law_pins_stay_unique(assignments: Seq<u64>, id: u64, slot: int)
    requires
        pins_unique(assignments),
        0 <= slot < assignments.len(),
    ensures
        pins_unique(assigned(assignments, id, slot)),
        pins_unique(cleared(assignments, id)),
{
}

/// Pinning one controller leaves every other controller's pin where it was,
/// except the one that held the destination slot, which becomes automatic.
pub proof fn law_other_pins_unaffected(assignments: Seq<u64>, id: u64, slot: int, other: u64)
    requires
        pins_unique(assignments),
        0 <= slot < assignments.len(),
        other != id,
        other != 0,
    ensures
        slot_of(assigned(assignments, id, slot), other) == (if assignments[slot] == other {
            None
        } else {
            slot_of(assignments, other)
        }),
        slot_of(cleared(assignments, id), other) == slot_of(assignments, other),
{
    let t = assigned(assignments, id, slot);
    let c = cleared(assignments, id);
    lemma_first_index_from(t, other, 0);
    lemma_first_index_from(c, other, 0);
    lemma_first_index_from(assignments, other, 0);
    if assignments[slot] == other {
        match first_index_from(t, other, 0) {
            Some(k) => {
                assert(assignments[k] == other);
                assert(k != slot);
            },
            None => {},
        }
    } else {
        match first_index_from(t, other, 0) {
            Some(k) => {
                match first_index_from(assignments, other, 0) {
                    Some(m) => {
                        if m < k {
                            assert(t[m] == other);
                        }
                        if k < m {
                            assert(assignments[k] == other);
                        }
                    },
                    None => {
                        assert(assignments[k] == other);
                    },
                }
            },
            None => {
                match first_index_from(assignments, other, 0) {
                    Some(m) => {
                        assert(t[m] == other);
                    },
                    None => {},
                }
            },
        }
    }
    match first_index_from(c, other, 0) {
        Some(k) => {
            match first_index_from(assignments, other, 0) {
                Some(m) => {
                    if m < k {
                        assert(c[m] == other);
                    }
                    if k < m {
                        assert(assignments[k] == other);
                    }
                },
                None => {
                    assert(assignments[k] == other);
                },
            }
        },
        None => {
            match first_index_from(assignments, other, 0) {
                Some(m) => {
                    assert(c[m] == other);
                },
                None => {},
            }
        },
    }
}

/// Host address the DSU server binds: every interface when exposed to the
/// network, loopback otherwise.
pub fn bind_host(expose_to_network: bool) -> (r: &'static str)
    ensures
        r@ == (if expose_to_network {
            "0.0.0.0"@
        } else {
            "127.0.0.1"@
        }),
{
    if expose_to_network {
        "0.0.0.0"
    } else {
        "127.0.0.1"
    }
}

/// The configuration the running server uses, and a counter that changes
/// every time a new configuration is installed so that readers can notice.
#[derive(Clone, Copy, Debug)]
pub struct LiveConfig {
    pub config: Config,
    pub generation: u64,
}

impl LiveConfig {
    /// Live state before anything was installed: the defaults, generation 0.
    pub fn new() -> (r: Self)
        ensures
            is_default_config(r.config),
            r.generation == 0,
    {
        LiveConfig { config: Config::default(), generation: 0 }
    }

    /// The live state after installing `cfg`.
    pub open spec fn after_install(self, cfg: Config) -> LiveConfig {
        LiveConfig { config: cfg, generation: ((self.generation + 1) % 0x1_0000_0000_0000_0000) as u64 }
    }
}

/// Replaces the live configuration and moves the generation counter on by
/// one (wrapping).
pub fn install(live: &mut LiveConfig, initial: Config)
    ensures
        *final(live) == old(live).after_install(initial),
{
    live.config = initial;
    live.generation = live.generation.wrapping_add(1);
}

/// The configuration currently live.
pub fn snapshot(live: &LiveConfig) -> (r: Config)
    ensures
        r == live.config,
{
    live.config
}

/// The current generation counter.
pub fn generation(live: &LiveConfig) -> (r: u64)
    ensures
        r == live.generation,
{
    live.generation
}

/// A read after an install gives back what was installed, and the
/// generation a reader last saw no longer matches.
pub proof fn law_install_then_snapshot(live: LiveConfig, cfg: Config)
    ensures
        live.after_install(cfg).config == cfg,
        live.after_install(cfg).generation != live.generation,
{
}

/// The live state after installing each of `cfgs` in turn.
pub open spec fn after_installs(live: LiveConfig, cfgs: Seq<Config>) -> LiveConfig
    decreases cfgs.len(),
{
    if cfgs.len() == 0 {
        live
    } else {
        after_installs(live, cfgs.drop_last()).after_install(cfgs.last())
    }
}

/// After `k` installs the generation has moved on by `k` (wrapping), and
/// the last configuration installed is the live one; with no install in
/// between, nothing changed.
pub proof fn law_generation_counts_installs(live: LiveConfig, cfgs: Seq<Config>)
    ensures
        after_installs(live, cfgs).generation == (live.generation + cfgs.len())
            % 0x1_0000_0000_0000_0000,
        cfgs.len() > 0 ==> after_installs(live, cfgs).config == cfgs.last(),
        cfgs.len() == 0 ==> after_installs(live, cfgs) == live,
    decreases cfgs.len(),
{
    if cfgs.len() > 0 {
        law_generation_counts_installs(live, cfgs.drop_last());
        let g = live.generation + cfgs.len() - 1;
        vstd::arithmetic::div_mod::lemma_add_mod_noop(g, 1, 0x1_0000_0000_0000_0000);
        assert(1int % 0x1_0000_0000_0000_0000 == 1);
    }
}

} // verus!
