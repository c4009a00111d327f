//! Decisions of the controller side of the server: the run mode chosen on
//! the command line, which DSU slot each open controller is routed to, when
//! an open controller is given up and reopened, and how long an interface
//! that failed to open is left alone.

use crate::config::{slot_of, Config, MAX_DSU_SLOTS};
use crate::stats::ControllerInfo;
use crate::triton::DeviceEvent;
use vstd::prelude::*;
use vstd::string::StringExecFns;

verus! {

/// How the program runs.
#[derive(Clone, Copy, Debug, PartialEq, Eq, Structural)]
pub enum Mode {
    /// Settings window and server; the window may start hidden in the tray.
    Gui { start_minimized: bool },
    /// Server only, logging to stderr.
    Headless,
    /// Enumerate the controllers and dump their decoded input.
    Probe,
}

/// The mode a single argument selects, if it is a mode flag.
pub open spec fn arg_mode(arg: Seq<char>) -> Option<Mode> {
    if arg == "--probe"@ || arg == "-p"@ {
        Some(Mode::Probe)
    } else if arg == "--headless"@ || arg == "-H"@ {
        Some(Mode::Headless)
    } else if arg == "--tray"@ || arg == "--minimized"@ {
        Some(Mode::Gui { start_minimized: true })
    } else if arg == "--gui"@ {
        Some(Mode::Gui { start_minimized: false })
    } else {
        None
    }
}

/// The mode of an argument list: the first mode flag decides; without one
/// the settings window opens visibly.
pub open spec fn mode_of(args: Seq<Seq<char>>) -> Mode
    decreases args.len(),
{
    if args.len() == 0 {
        Mode::Gui { start_minimized: false }
    } else {
        match arg_mode(args[0]) {
            Some(m) => m,
            None => mode_of(args.drop_first()),
        }
    }
}

/// The arguments as character sequences.
pub open spec fn arg_views(args: Seq<String>) -> Seq<Seq<char>> {
    args.map_values(|a: String| a@)
}

fn arg_is(arg: &String, flag: &str) -> (r: bool)
    ensures
        r == (arg@ == flag@),
{
    *arg == String::from_str(flag)
}

fn mode_of_arg(arg: &String) -> (r: Option<Mode>)
    ensures
        r == arg_mode(arg@),
{
    if arg_is(arg, "--probe") || arg_is(arg, "-p") {
        Some(Mode::Probe)
    } else if arg_is(arg, "--headless") || arg_is(arg, "-H") {
        Some(Mode::Headless)
    } else if arg_is(arg, "--tray") || arg_is(arg, "--minimized") {
        Some(Mode::Gui { start_minimized: true })
    } else if arg_is(arg, "--gui") {
        Some(Mode::Gui { start_minimized: false })
    } else {
        None
    }
}

/// The mode selected by the command-line arguments (program name removed).
pub fn parse_args_from(args: &[String]) -> (r: Mode)
    ensures
        r == mode_of(arg_views(args@)),
{
    let mut i: usize = 0;
    assert(arg_views(args@).skip(0) =~= arg_views(args@));
    while i < args.len()
        invariant
            0 <= i <= args@.len(),
            mode_of(arg_views(args@).skip(i as int)) == mode_of(arg_views(args@)),
        decreases args@.len() - i,
    {
        assert(arg_views(args@).skip(i as int)[0] == args@[i as int]@);
        assert(arg_views(args@).skip(i as int).drop_first() =~= arg_views(args@).skip(i + 1));
        match mode_of_arg(&args[i]) {
            Some(m) => {
                return m;
            },
            None => {},
        }
        i = i + 1;
    }
    assert(arg_views(args@).skip(i as int) =~= Seq::<Seq<char>>::empty());
    Mode::Gui { start_minimized: false }
}

/// Arguments before the first mode flag do not matter: the first mode flag
/// decides the mode, whatever follows it.
pub proof fn law_first_mode_flag_decides(
    before: Seq<Seq<char>>,
    flag: Seq<char>,
    after: Seq<Seq<char>>,
)
    requires
        forall|i: int| 0 <= i < before.len() ==> arg_mode(#[trigger] before[i]) is None,
        arg_mode(flag) is Some,
    ensures
        mode_of(before + seq![flag] + after) == arg_mode(flag).unwrap(),
    decreases before.len(),
{
    let args = before + seq![flag] + after;
    if before.len() == 0 {
        assert(args[0] == flag);
    } else {
        assert(args[0] == before[0]);
        assert(arg_mode(before[0]) is None);
        assert(args.drop_first() =~= before.drop_first() + seq![flag] + after);
        assert forall|i: int| 0 <= i < before.drop_first().len() implies arg_mode(
            #[trigger] before.drop_first()[i],
        ) is None by {
            assert(before.drop_first()[i] == before[i + 1]);
        }
        law_first_mode_flag_decides(before.drop_first(), flag, after);
    }
}

/// Without a mode flag the settings window opens visibly.
pub proof fn law_no_mode_flag_opens_visible_gui(args: Seq<Seq<char>>)
    requires
        forall|i: int| 0 <= i < args.len() ==> arg_mode(#[trigger] args[i]) is None,
    ensures
        mode_of(args) == (Mode::Gui { start_minimized: false }),
    decreases args.len(),
{
    if args.len() > 0 {
        assert(arg_mode(args[0]) is None);
        assert forall|i: int| 0 <= i < args.drop_first().len() implies arg_mode(
            #[trigger] args.drop_first()[i],
        ) is None by {
            assert(args.drop_first()[i] == args[i + 1]);
        }
        law_no_mode_flag_opens_visible_gui(args.drop_first());
    }
}

// ---------------------------------------------------------------------------
// DSU slot routing.

/// Some controller before index `n` is pinned to `slot`.
pub open spec fn pinned_before(ids: Seq<u64>, assignments: Seq<u64>, slot: u8, n: int) -> bool {
    exists|j: int| 0 <= j < n && #[trigger] slot_of(assignments, ids[j]) == Some(slot)
}

/// Controller `i` takes the slot it is pinned to: no controller before it
/// is pinned there.
pub open spec fn claims(ids: Seq<u64>, assignments: Seq<u64>, i: int) -> bool {
    match slot_of(assignments, ids[i]) {
        Some(s) => !pinned_before(ids, assignments, s, i),
        None => false,
    }
}

/// The slots below `n` that no controller is pinned to, ascending.
pub open spec fn free_slots_below(ids: Seq<u64>, assignments: Seq<u64>, n: int) -> Seq<u8>
    decreases n,
{
    if n <= 0 {
        Seq::empty()
    } else if pinned_before(ids, assignments, (n - 1) as u8, ids.len() as int) {
        free_slots_below(ids, assignments, n - 1)
    } else {
        free_slots_below(ids, assignments, n - 1).push((n - 1) as u8)
    }
}

/// The DSU slots left for controllers that take no pinned slot.
pub open spec fn free_slots(ids: Seq<u64>, assignments: Seq<u64>) -> Seq<u8> {
    free_slots_below(ids, assignments, MAX_DSU_SLOTS as int)
}

/// How many controllers before `i` take no pinned slot.
pub open spec fn unclaimed_before(ids: Seq<u64>, assignments: Seq<u64>, i: int) -> int
    decreases i,
{
    if i <= 0 {
        0
    } else {
        unclaimed_before(ids, assignments, i - 1) + if claims(ids, assignments, i - 1) {
            0int
        } else {
            1int
        }
    }
}

/// The DSU slot of controller `i` among controllers `ids`, in discovery
/// order: its pinned slot when it is the first controller pinned there;
/// otherwise the next free slot in ascending order, in discovery order of
/// the controllers that took no pinned slot; none once the free slots are
/// used up.
pub open spec fn desired_slot(ids: Seq<u64>, assignments: Seq<u64>, i: int) -> Option<u8> {
    if claims(ids, assignments, i) {
        slot_of(assignments, ids[i])
    } else if unclaimed_before(ids, assignments, i) < free_slots(ids, assignments).len() {
        Some(free_slots(ids, assignments)[unclaimed_before(ids, assignments, i)])
    } else {
        None
    }
}

proof fn lemma_slot_of_bound(assignments: Seq<u64>, id: u64)
    requires
        assignments.len() == MAX_DSU_SLOTS,
    ensures
        slot_of(assignments, id) matches Some(s) ==> s < assignments.len() && assignments[s as int]
            == id,
{
    crate::config::lemma_first_index_from(assignments, id, 0);
}

proof fn lemma_pinned_before_step(ids: Seq<u64>, assignments: Seq<u64>, slot: u8, i: int)
    requires
        0 <= i < ids.len(),
    ensures
        pinned_before(ids, assignments, slot, i + 1) == (pinned_before(ids, assignments, slot, i)
            || slot_of(assignments, ids[i]) == Some(slot)),
{
    if slot_of(assignments, ids[i]) == Some(slot) {
        assert(pinned_before(ids, assignments, slot, i + 1));
    }
    if pinned_before(ids, assignments, slot, i + 1) && slot_of(assignments, ids[i]) != Some(slot) {
        let j = choose|j: int| 0 <= j < i + 1 && #[trigger] slot_of(assignments, ids[j]) == Some(slot);
        assert(j < i);
    }
}

/// The DSU slot for each open controller, given their stable ids in
/// discovery order: pinned controllers first, then every other controller
/// in order takes the lowest slot still free.
pub fn desired_slot_assignments(ids: &[u64], cfg: &Config) -> (r: Vec<Option<u8>>)
    ensures
        r@.len() == ids@.len(),
        forall|i: int|
            0 <= i < ids@.len() ==> #[trigger] r@[i] == desired_slot(
                ids@,
                cfg.slot_assignments@,
                i,
            ),
{
    let ghost asg = cfg.slot_assignments@;
    let n = ids.len();
    let mut desired: Vec<Option<u8>> = Vec::new();
    let mut occupied = [false; 4];
    let mut i: usize = 0;
    while i < n
        invariant
            n == ids@.len(),
            asg == cfg.slot_assignments@,
            0 <= i <= n,
            desired@.len() == i,
            forall|j: int|
                0 <= j < i ==> #[trigger] desired@[j] == (if claims(ids@, asg, j) {
                    slot_of(asg, ids@[j])
                } else {
                    None
                }),
            forall|s: int|
                0 <= s < 4 ==> #[trigger] occupied@[s] == pinned_before(ids@, asg, s as u8, i as int),
        decreases n - i,
    {
        let pinned = cfg.slot_for_controller(ids[i]);
        proof {
            lemma_slot_of_bound(asg, ids@[i as int]);
            assert forall|s: int| 0 <= s < 4 implies #[trigger] pinned_before(
                ids@,
                asg,
                s as u8,
                i + 1,
            ) == (
            pinned_before(ids@, asg, s as u8, i as int) || slot_of(asg, ids@[i as int]) == Some(
                s as u8,
            )) by {
                lemma_pinned_before_step(ids@, asg, s as u8, i as int);
            }
        }
        match pinned {
            Some(s) => {
                if !occupied[s as usize] {
                    desired.push(Some(s));
                    occupied[s as usize] = true;
                } else {
                    desired.push(None);
                }
            },
            None => {
                desired.push(None);
            },
        }
        i = i + 1;
    }
    let mut free: Vec<u8> = Vec::new();
    let mut s: usize = 0;
    while s < 4
        invariant
            n == ids@.len(),
            0 <= s <= 4,
            free@ == free_slots_below(ids@, asg, s as int),
            forall|t: int|
                0 <= t < 4 ==> #[trigger] occupied@[t] == pinned_before(ids@, asg, t as u8, n as int),
        decreases 4 - s,
    {
        if !occupied[s] {
            free.push(s as u8);
        }
        s = s + 1;
    }
    let mut k: usize = 0;
    i = 0;
    while i < n
        invariant
            n == ids@.len(),
            asg == cfg.slot_assignments@,
            0 <= k <= i <= n,
            desired@.len() == n,
            free@ == free_slots(ids@, asg),
            k == unclaimed_before(ids@, asg, i as int),
            forall|j: int|
                0 <= j < i ==> #[trigger] desired@[j] == desired_slot(ids@, asg, j),
            forall|j: int|
                i <= j < n ==> #[trigger] desired@[j] == (if claims(ids@, asg, j) {
                    slot_of(asg, ids@[j])
                } else {
                    None
                }),
        decreases n - i,
    {
        proof {
            lemma_slot_of_bound(asg, ids@[i as int]);
        }
        if desired[i].is_none() {
            if k < free.len() {
                desired.set(i, Some(free[k]));
            }
            k = k + 1;
        }
        i = i + 1;
    }
    desired
}

/// The free slots below `n` are below `n`, pinned by nobody, and strictly
/// ascending.
proof fn lemma_free_slots_shape(ids: Seq<u64>, assignments: Seq<u64>, n: int)
    requires
        0 <= n <= MAX_DSU_SLOTS,
    ensures
        free_slots_below(ids, assignments, n).len() <= n,
        forall|m: int|
            0 <= m < free_slots_below(ids, assignments, n).len() ==> #[trigger] free_slots_below(
                ids,
                assignments,
                n,
            )[m] < n && !pinned_before(
                ids,
                assignments,
                free_slots_below(ids, assignments, n)[m],
                ids.len() as int,
            ),
        forall|a: int, b: int|
            0 <= a < b < free_slots_below(ids, assignments, n).len() ==> #[trigger] free_slots_below(
                ids,
                assignments,
                n,
            )[a] < #[trigger] free_slots_below(ids, assignments, n)[b],
    decreases n,
{
    if n > 0 {
        lemma_free_slots_shape(ids, assignments, n - 1);
    }
}

/// Counts of controllers that take no pinned slot only grow, and strictly
/// past one that takes none.
proof fn lemma_unclaimed_grows(ids: Seq<u64>, assignments: Seq<u64>, i: int, j: int)
    requires
        0 <= i <= j,
    ensures
        unclaimed_before(ids, assignments, i) <= unclaimed_before(ids, assignments, j),
        i < j && !claims(ids, assignments, i) ==> unclaimed_before(ids, assignments, i)
            < unclaimed_before(ids, assignments, j),
        0 <= unclaimed_before(ids, assignments, i) <= i,
    decreases j,
{
    if j > i {
        lemma_unclaimed_grows(ids, assignments, i, j - 1);
    } else if i > 0 {
        lemma_unclaimed_grows(ids, assignments, i - 1, i - 1);
    }
}

/// No two controllers are routed to the same DSU slot.
pub proof fn law_no_slot_given_twice(ids: Seq<u64>, assignments: Seq<u64>, i: int, j: int)
    requires
        assignments.len() == MAX_DSU_SLOTS,
        0 <= i < j < ids.len(),
        desired_slot(ids, assignments, i) is Some,
        desired_slot(ids, assignments, j) is Some,
    ensures
        desired_slot(ids, assignments, i) != desired_slot(ids, assignments, j),
{
    lemma_free_slots_shape(ids, assignments, MAX_DSU_SLOTS as int);
    lemma_unclaimed_grows(ids, assignments, i, j);
    let free = free_slots(ids, assignments);
    if claims(ids, assignments, i) && claims(ids, assignments, j) {
        let s = slot_of(assignments, ids[j]).unwrap();
        if slot_of(assignments, ids[i]) == Some(s) {
            assert(pinned_before(ids, assignments, s, j));
        }
    } else if claims(ids, assignments, i) {
        let s = slot_of(assignments, ids[i]).unwrap();
        assert(pinned_before(ids, assignments, s, ids.len() as int));
        let m = unclaimed_before(ids, assignments, j);
        assert(!pinned_before(ids, assignments, free[m], ids.len() as int));
    } else if claims(ids, assignments, j) {
        let s = slot_of(assignments, ids[j]).unwrap();
        assert(pinned_before(ids, assignments, s, ids.len() as int));
        let m = unclaimed_before(ids, assignments, i);
        assert(!pinned_before(ids, assignments, free[m], ids.len() as int));
    } else {
        let a = unclaimed_before(ids, assignments, i);
        let b = unclaimed_before(ids, assignments, j);
        assert(free[a] < free[b]);
    }
}

/// A controller pinned to a slot that no controller before it is pinned to
/// is routed to that slot.
pub proof fn law_pinned_controller_gets_its_slot(
    ids: Seq<u64>,
    assignments: Seq<u64>,
    i: int,
    slot: u8,
)
    requires
        0 <= i < ids.len(),
        slot_of(assignments, ids[i]) == Some(slot),
        forall|j: int| 0 <= j < i ==> slot_of(assignments, ids[j]) != Some(slot),
    ensures
        desired_slot(ids, assignments, i) == Some(slot),
{
}

proof fn lemma_no_pins(ids: Seq<u64>, assignments: Seq<u64>, n: int)
    requires
        0 <= n <= MAX_DSU_SLOTS,
        forall|j: int| 0 <= j < ids.len() ==> slot_of(assignments, #[trigger] ids[j]) is None,
    ensures
        free_slots_below(ids, assignments, n).len() == n,
        forall|m: int| 0 <= m < n ==> #[trigger] free_slots_below(ids, assignments, n)[m] == m,
    decreases n,
{
    if n > 0 {
        lemma_no_pins(ids, assignments, n - 1);
        if pinned_before(ids, assignments, (n - 1) as u8, ids.len() as int) {
            let j = choose|j: int|
                0 <= j < ids.len() && #[trigger] slot_of(assignments, ids[j]) == Some(
                    (n - 1) as u8,
                );
            assert(slot_of(assignments, ids[j]) is None);
        }
    }
}

proof fn lemma_no_claims(ids: Seq<u64>, assignments: Seq<u64>, i: int)
    requires
        0 <= i <= ids.len(),
        forall|j: int| 0 <= j < ids.len() ==> slot_of(assignments, #[trigger] ids[j]) is None,
    ensures
        unclaimed_before(ids, assignments, i) == i,
    decreases i,
{
    if i > 0 {
        lemma_no_claims(ids, assignments, i - 1);
        assert(slot_of(assignments, ids[i - 1]) is None);
    }
}

/// Without slot preferences, controllers take DSU slots 0 to 3 in
/// discovery order, and any further controller gets no slot.
pub proof fn law_unpinned_controllers_fill_slots_in_order(
    ids: Seq<u64>,
    assignments: Seq<u64>,
    i: int,
)
    requires
        0 <= i < ids.len(),
        forall|j: int| 0 <= j < ids.len() ==> slot_of(assignments, #[trigger] ids[j]) is None,
    ensures
        desired_slot(ids, assignments, i) == (if i < MAX_DSU_SLOTS {
            Some(i as u8)
        } else {
            None
        }),
{
    lemma_no_pins(ids, assignments, MAX_DSU_SLOTS as int);
    lemma_no_claims(ids, assignments, i);
    assert(slot_of(assignments, ids[i]) is None);
}

/// Number of slots below `m` that some controller before `n` is pinned to.
pub open spec fn pinned_slot_count(ids: Seq<u64>, assignments: Seq<u64>, m: int, n: int) -> int
    decreases m,
{
    if m <= 0 {
        0
    } else {
        pinned_slot_count(ids, assignments, m - 1, n) + if pinned_before(
            ids,
            assignments,
            (m - 1) as u8,
            n,
        ) {
            1int
        } else {
            0int
        }
    }
}

/// Number of controllers before `n` that take their pinned slot.
pub open spec fn claimed_count(ids: Seq<u64>, assignments: Seq<u64>, n: int) -> int
    decreases n,
{
    if n <= 0 {
        0
    } else {
        claimed_count(ids, assignments, n - 1) + if claims(ids, assignments, n - 1) {
            1int
        } else {
            0int
        }
    }
}

proof fn lemma_free_count(ids: Seq<u64>, assignments: Seq<u64>, m: int)
    requires
        0 <= m <= MAX_DSU_SLOTS,
    ensures
        free_slots_below(ids, assignments, m).len() + pinned_slot_count(
            ids,
            assignments,
            m,
            ids.len() as int,
        ) == m,
    decreases m,
{
    if m > 0 {
        lemma_free_count(ids, assignments, m - 1);
    }
}

/// Adding controller `n` pins one more slot below `m` exactly when it takes
/// its pinned slot and that slot is below `m`.
proof fn lemma_pinned_count_step(ids: Seq<u64>, assignments: Seq<u64>, m: int, n: int)
    requires
        assignments.len() == MAX_DSU_SLOTS,
        0 <= m <= MAX_DSU_SLOTS,
        0 <= n < ids.len(),
    ensures
        pinned_slot_count(ids, assignments, m, n + 1) == pinned_slot_count(ids, assignments, m, n)
            + if claims(ids, assignments, n) && slot_of(assignments, ids[n]).unwrap() < m {
            1int
        } else {
            0int
        },
    decreases m,
{
    lemma_slot_of_bound(assignments, ids[n]);
    if m > 0 {
        lemma_pinned_count_step(ids, assignments, m - 1, n);
        lemma_pinned_before_step(ids, assignments, (m - 1) as u8, n);
    }
}

proof fn lemma_claimed_is_pinned(ids: Seq<u64>, assignments: Seq<u64>, n: int)
    requires
        assignments.len() == MAX_DSU_SLOTS,
        0 <= n <= ids.len(),
    ensures
        claimed_count(ids, assignments, n) == pinned_slot_count(
            ids,
            assignments,
            MAX_DSU_SLOTS as int,
            n,
        ),
        unclaimed_before(ids, assignments, n) + claimed_count(ids, assignments, n) == n,
    decreases n,
{
    if n > 0 {
        lemma_claimed_is_pinned(ids, assignments, n - 1);
        lemma_pinned_count_step(ids, assignments, MAX_DSU_SLOTS as int, n - 1);
        lemma_slot_of_bound(assignments, ids[n - 1]);
    } else {
        assert(pinned_slot_count(ids, assignments, MAX_DSU_SLOTS as int, 0) == 0) by {
            lemma_nothing_pinned_yet(ids, assignments, MAX_DSU_SLOTS as int);
        }
    }
}

proof fn lemma_nothing_pinned_yet(ids: Seq<u64>, assignments: Seq<u64>, m: int)
    requires
        0 <= m,
    ensures
        pinned_slot_count(ids, assignments, m, 0) == 0,
    decreases m,
{
    if m > 0 {
        lemma_nothing_pinned_yet(ids, assignments, m - 1);
    }
}

/// With at most four controllers, every one of them is routed to a slot.
pub proof fn law_four_controllers_all_routed(ids: Seq<u64>, assignments: Seq<u64>, i: int)
    requires
        assignments.len() == MAX_DSU_SLOTS,
        ids.len() <= MAX_DSU_SLOTS,
        0 <= i < ids.len(),
    ensures
        desired_slot(ids, assignments, i) is Some,
{
    lemma_slot_of_bound(assignments, ids[i]);
    if !claims(ids, assignments, i) {
        let n = ids.len() as int;
        lemma_unclaimed_grows(ids, assignments, i, n);
        lemma_claimed_is_pinned(ids, assignments, n);
        lemma_free_count(ids, assignments, MAX_DSU_SLOTS as int);
    }
}

// ---------------------------------------------------------------------------
// Applying a new routing.

/// What moving one controller from slot `old` to slot `new` tells the DSU
/// server: the old slot disconnects, then the new one connects.
pub open spec fn change_events(old: Option<u8>, new: Option<u8>, info: ControllerInfo) -> Seq<
    DeviceEvent,
> {
    if old == new {
        Seq::empty()
    } else {
        (match old {
            Some(s) => seq![DeviceEvent::Disconnected { slot: s }],
            None => Seq::empty(),
        }) + (match new {
            Some(s) => seq![DeviceEvent::Connected { slot: s, controller: info }],
            None => Seq::empty(),
        })
    }
}

/// The events for the first `n` controllers, in order.
pub open spec fn sync_events(
    current: Seq<Option<u8>>,
    infos: Seq<ControllerInfo>,
    desired: Seq<Option<u8>>,
    n: int,
) -> Seq<DeviceEvent>
    decreases n,
{
    if n <= 0 {
        Seq::empty()
    } else {
        sync_events(current, infos, desired, n - 1) + change_events(
            current[n - 1],
            desired[n - 1],
            infos[n - 1],
        )
    }
}

/// Moves every controller to its desired slot and returns the events that
/// tell the DSU server about each move, controller by controller.
pub fn sync_slot_assignments(
    slots: &mut Vec<Option<u8>>,
    infos: &[ControllerInfo],
    desired: &[Option<u8>],
) -> (r: Vec<DeviceEvent>)
    requires
        old(slots)@.len() == infos@.len(),
        desired@.len() == infos@.len(),
    ensures
        final(slots)@ == desired@,
        r@ == sync_events(old(slots)@, infos@, desired@, infos@.len() as int),
{
    let mut events: Vec<DeviceEvent> = Vec::new();
    let mut i: usize = 0;
    while i < slots.len()
        invariant
            0 <= i <= slots@.len(),
            slots@.len() == infos@.len(),
            desired@.len() == infos@.len(),
            forall|k: int| 0 <= k < i ==> slots@[k] == desired@[k],
            forall|k: int| i <= k < slots@.len() ==> slots@[k] == old(slots)@[k],
            events@ == sync_events(old(slots)@, infos@, desired@, i as int),
        decreases slots@.len() - i,
    {
        let current = slots[i];
        let wanted = desired[i];
        let ghost before = events@;
        if current != wanted {
            match current {
                Some(s) => {
                    events.push(DeviceEvent::Disconnected { slot: s });
                },
                None => {},
            }
            slots.set(i, wanted);
            match wanted {
                Some(s) => {
                    events.push(DeviceEvent::Connected { slot: s, controller: infos[i] });
                },
                None => {},
            }
        }
        assert(events@ =~= before + change_events(
            old(slots)@[i as int],
            desired@[i as int],
            infos@[i as int],
        ));
        i = i + 1;
    }
    assert(slots@ =~= desired@);
    events
}

/// The events that release every routed slot when all controllers are
/// closed: one disconnection per controller that had a slot, in order.
pub open spec fn disconnect_events_of(slots: Seq<Option<u8>>) -> Seq<DeviceEvent>
    decreases slots.len(),
{
    if slots.len() == 0 {
        Seq::empty()
    } else {
        disconnect_events_of(slots.drop_last()) + match slots.last() {
            Some(s) => seq![DeviceEvent::Disconnected { slot: s }],
            None => Seq::empty(),
        }
    }
}

pub fn disconnect_events(slots: &[Option<u8>]) -> (r: Vec<DeviceEvent>)
    ensures
        r@ == disconnect_events_of(slots@),
{
    let mut events: Vec<DeviceEvent> = Vec::new();
    let mut i: usize = 0;
    while i < slots.len()
        invariant
            0 <= i <= slots@.len(),
            events@ == disconnect_events_of(slots@.take(i as int)),
        decreases slots@.len() - i,
    {
        assert(slots@.take(i + 1).drop_last() =~= slots@.take(i as int));
        match slots[i] {
            Some(s) => {
                events.push(DeviceEvent::Disconnected { slot: s });
            },
            None => {},
        }
        assert(events@ =~= disconnect_events_of(slots@.take(i + 1)));
        i = i + 1;
    }
    assert(slots@.take(i as int) =~= slots@);
    events
}

// ---------------------------------------------------------------------------
// Read health of an open controller.

/// Samples in a row with the same IMU timestamp after which the interface
/// is reopened.
pub const STALE_THRESHOLD: u32 = 100;
/// Read errors in a row after which the interface is reopened.
pub const ERROR_THRESHOLD: u32 = 5;
/// Milliseconds without a sample after which the interface is reopened.
pub const SILENCE_REOPEN_MS: u64 = 2000;

/// What one non-blocking read of a controller gave.
#[derive(Clone, Copy, Debug, PartialEq, Eq, Structural)]
pub enum ReadOutcome {
    /// A decoded sample, with its IMU timestamp.
    Sample { timestamp_us: u32 },
    /// No report, or one that carried no sample.
    Nothing,
    /// The read failed.
    Error,
}

/// What to do after a read.
#[derive(Clone, Copy, Debug, PartialEq, Eq, Structural)]
pub struct PollAction {
    /// Forward the sample to the controller's DSU slot: its IMU timestamp
    /// is new.
    pub forward: bool,
    /// Close the interface and let the scanner reopen it.
    pub reopen: bool,
}

/// Read bookkeeping of one open controller.
#[derive(Clone, Copy, Debug, PartialEq, Eq, Structural)]
pub struct ReadTracker {
    pub last_sample_at_ms: u64,
    pub consecutive_errors: u32,
    pub last_imu_timestamp: Option<u32>,
    pub stale_samples: u32,
}

impl ReadTracker {
    /// Counters below the thresholds at which the interface is given up.
    pub open spec fn wf(self) -> bool {
        self.consecutive_errors < ERROR_THRESHOLD && self.stale_samples < STALE_THRESHOLD
    }

    /// Bookkeeping of an interface opened at `now_ms`.
    pub fn new(now_ms: u64) -> (r: Self)
        ensures
            r.wf(),
            r == (ReadTracker {
                last_sample_at_ms: now_ms,
                consecutive_errors: 0,
                last_imu_timestamp: None,
                stale_samples: 0,
            }),
    {
        ReadTracker {
            last_sample_at_ms: now_ms,
            consecutive_errors: 0,
            last_imu_timestamp: None,
            stale_samples: 0,
        }
    }
}

/// Milliseconds from `then` to `now`; zero if the clock reads earlier.
pub open spec fn elapsed_ms(now: u64, then: u64) -> int {
    if now >= then {
        now - then
    } else {
        0
    }
}

/// The bookkeeping after a read at `now_ms`, and what to do about it.  A
/// sample clears the error count and restarts the silence timer; a sample
/// whose IMU timestamp repeats the last one is not forwarded and counts
/// toward reopening.  An empty read clears the error count and reopens
/// after two seconds of silence.  An error counts toward reopening.
pub open spec fn poll_step(t: ReadTracker, outcome: ReadOutcome, now_ms: u64) -> (
    ReadTracker,
    PollAction,
) {
    match outcome {
        ReadOutcome::Sample { timestamp_us } => {
            if t.last_imu_timestamp == Some(timestamp_us) {
                let stale = (t.stale_samples + 1) as u32;
                (
                    ReadTracker {
                        last_sample_at_ms: now_ms,
                        consecutive_errors: 0,
                        stale_samples: stale,
                        ..t
                    },
                    PollAction { forward: false, reopen: stale >= STALE_THRESHOLD },
                )
            } else {
                (
                    ReadTracker {
                        last_sample_at_ms: now_ms,
                        consecutive_errors: 0,
                        last_imu_timestamp: Some(timestamp_us),
                        stale_samples: 0,
                    },
                    PollAction { forward: true, reopen: false },
                )
            }
        },
        ReadOutcome::Nothing => (
            ReadTracker { consecutive_errors: 0, ..t },
            PollAction {
                forward: false,
                reopen: elapsed_ms(now_ms, t.last_sample_at_ms) >= SILENCE_REOPEN_MS,
            },
        ),
        ReadOutcome::Error => {
            let errors = (t.consecutive_errors + 1) as u32;
            (
                ReadTracker { consecutive_errors: errors, ..t },
                PollAction { forward: false, reopen: errors >= ERROR_THRESHOLD },
            )
        },
    }
}

/// Records a read at `now_ms`.  Unless the interface is to be reopened, the
/// counters stay below their thresholds.
pub fn record_read(tracker: &mut ReadTracker, outcome: ReadOutcome, now_ms: u64) -> (r: PollAction)
    requires
        old(tracker).wf(),
    ensures
        *final(tracker) == poll_step(*old(tracker), outcome, now_ms).0,
        r == poll_step(*old(tracker), outcome, now_ms).1,
        !r.reopen ==> final(tracker).wf(),
{
    match outcome {
        ReadOutcome::Sample { timestamp_us } => {
            tracker.consecutive_errors = 0;
            tracker.last_sample_at_ms = now_ms;
            let fresh = match tracker.last_imu_timestamp {
                Some(prev) => prev != timestamp_us,
                None => true,
            };
            if !fresh {
                tracker.stale_samples = tracker.stale_samples + 1;
                PollAction { forward: false, reopen: tracker.stale_samples >= STALE_THRESHOLD }
            } else {
                tracker.last_imu_timestamp = Some(timestamp_us);
                tracker.stale_samples = 0;
                PollAction { forward: true, reopen: false }
            }
        },
        ReadOutcome::Nothing => {
            tracker.consecutive_errors = 0;
            let silent = if now_ms >= tracker.last_sample_at_ms {
                now_ms - tracker.last_sample_at_ms
            } else {
                0
            };
            PollAction { forward: false, reopen: silent >= SILENCE_REOPEN_MS }
        },
        ReadOutcome::Error => {
            tracker.consecutive_errors = tracker.consecutive_errors + 1;
            PollAction { forward: false, reopen: tracker.consecutive_errors >= ERROR_THRESHOLD }
        },
    }
}

/// The bookkeeping and the last action after `outcomes`, read in turn at
/// `now_ms`.
pub open spec fn poll_all(t: ReadTracker, outcomes: Seq<ReadOutcome>, now_ms: u64) -> (
    ReadTracker,
    PollAction,
)
    decreases outcomes.len(),
{
    if outcomes.len() == 0 {
        (t, PollAction { forward: false, reopen: false })
    } else {
        poll_step(poll_all(t, outcomes.drop_last(), now_ms).0, outcomes.last(), now_ms)
    }
}

/// `k` failed reads.
pub open spec fn errors(k: nat) -> Seq<ReadOutcome> {
    Seq::new(k, |i: int| ReadOutcome::Error)
}

/// `k` samples with IMU timestamp `ts`.
pub open spec fn repeats(ts: u32, k: nat) -> Seq<ReadOutcome> {
    Seq::new(k, |i: int| ReadOutcome::Sample { timestamp_us: ts })
}

proof fn lemma_errors_accumulate(t: ReadTracker, k: nat, now_ms: u64)
    requires
        t.consecutive_errors == 0,
        1 <= k <= ERROR_THRESHOLD,
    ensures
        poll_all(t, errors(k), now_ms).0.consecutive_errors == k,
        poll_all(t, errors(k), now_ms).1.reopen == (k == ERROR_THRESHOLD),
    decreases k,
{
    assert(errors(k).last() == ReadOutcome::Error);
    let prev = poll_all(t, errors(k).drop_last(), now_ms);
    if k > 1 {
        lemma_errors_accumulate(t, (k - 1) as nat, now_ms);
        assert(errors(k).drop_last() =~= errors((k - 1) as nat));
    } else {
        assert(errors(k).drop_last() =~= Seq::<ReadOutcome>::empty());
        assert(prev.0 == t);
    }
    assert(poll_all(t, errors(k), now_ms) == poll_step(prev.0, ReadOutcome::Error, now_ms));
}

/// Read errors in a row get the interface reopened at the fifth, and not
/// before.
pub proof fn law_fifth_error_reopens(t: ReadTracker, k: nat, now_ms: u64)
    requires
        t.consecutive_errors == 0,
        1 <= k <= ERROR_THRESHOLD,
    ensures
        poll_all(t, errors(k), now_ms).1.reopen == (k == ERROR_THRESHOLD),
{
    lemma_errors_accumulate(t, k, now_ms);
}

proof fn lemma_repeats_accumulate(t: ReadTracker, ts: u32, k: nat, now_ms: u64)
    requires
        t.last_imu_timestamp == Some(ts),
        t.stale_samples == 0,
        1 <= k <= STALE_THRESHOLD,
    ensures
        poll_all(t, repeats(ts, k), now_ms).0 == (ReadTracker {
            last_sample_at_ms: now_ms,
            consecutive_errors: 0,
            last_imu_timestamp: Some(ts),
            stale_samples: k as u32,
        }),
        poll_all(t, repeats(ts, k), now_ms).1 == (PollAction {
            forward: false,
            reopen: k == STALE_THRESHOLD,
        }),
    decreases k,
{
    assert(repeats(ts, k).last() == ReadOutcome::Sample { timestamp_us: ts });
    let prev = poll_all(t, repeats(ts, k).drop_last(), now_ms);
    if k > 1 {
        lemma_repeats_accumulate(t, ts, (k - 1) as nat, now_ms);
        assert(repeats(ts, k).drop_last() =~= repeats(ts, (k - 1) as nat));
    } else {
        assert(repeats(ts, k).drop_last() =~= Seq::<ReadOutcome>::empty());
        assert(prev.0 == t);
    }
    assert(poll_all(t, repeats(ts, k), now_ms) == poll_step(
        prev.0,
        ReadOutcome::Sample { timestamp_us: ts },
        now_ms,
    ));
}

/// After a fresh sample, the same IMU timestamp repeated is never
/// forwarded, and the hundredth repeat gets the interface reopened.
pub proof fn law_frozen_imu_reopens(t: ReadTracker, ts: u32, k: nat, now_ms: u64)
    requires
        t.last_imu_timestamp == Some(ts),
        t.stale_samples == 0,
        1 <= k <= STALE_THRESHOLD,
    ensures
        !poll_all(t, repeats(ts, k), now_ms).1.forward,
        poll_all(t, repeats(ts, k), now_ms).1.reopen == (k == STALE_THRESHOLD),
{
    lemma_repeats_accumulate(t, ts, k, now_ms);
}

// ---------------------------------------------------------------------------
// Back-off for interfaces that fail to open.

/// First wait before reopening an interface that failed to open, and the
/// longest wait, in seconds.
pub const OPEN_RETRY_MIN_SECS: u64 = 1;
pub const OPEN_RETRY_MAX_SECS: u64 = 60;

/// `2^n`.
pub open spec fn doubling(n: nat) -> nat
    decreases n,
{
    if n == 0 {
        1
    } else {
        2 * doubling((n - 1) as nat)
    }
}

/// Seconds to wait after the `attempts`-th failed open: one second,
/// doubling with every further failure, at most sixty.
pub open spec fn retry_delay(attempts: u32) -> u64 {
    let doublings: nat = if attempts == 0 {
        0
    } else if attempts - 1 < 6 {
        (attempts - 1) as nat
    } else {
        6
    };
    let delay = OPEN_RETRY_MIN_SECS * doubling(doublings);
    if delay < OPEN_RETRY_MAX_SECS {
        delay as u64
    } else {
        OPEN_RETRY_MAX_SECS
    }
}

pub fn retry_delay_secs(attempts: u32) -> (r: u64)
    ensures
        r == retry_delay(attempts),
        OPEN_RETRY_MIN_SECS <= r <= OPEN_RETRY_MAX_SECS,
{
    let doublings: u32 = if attempts == 0 {
        0
    } else if attempts - 1 < 6 {
        attempts - 1
    } else {
        6
    };
    let mut delay: u64 = OPEN_RETRY_MIN_SECS;
    let mut i: u32 = 0;
    while i < doublings
        invariant
            0 <= i <= doublings <= 6,
            delay == OPEN_RETRY_MIN_SECS * doubling(i as nat),
            1 <= delay <= 64,
        decreases doublings - i,
    {
        assert(doubling((i + 1) as nat) == 2 * doubling(i as nat));
        assert(i + 1 <= 6 ==> doubling((i + 1) as nat) <= 64) by {
            assert(doubling(0) == 1);
            assert(doubling(1) == 2);
            assert(doubling(2) == 4);
            assert(doubling(3) == 8);
            assert(doubling(4) == 16);
            assert(doubling(5) == 32);
            assert(doubling(6) == 64);
        }
        delay = delay * 2;
        i = i + 1;
    }
    assert(doubling(0) == 1);
    if delay < OPEN_RETRY_MAX_SECS {
        delay
    } else {
        OPEN_RETRY_MAX_SECS
    }
}

proof fn lemma_doubling_grows(a: nat, b: nat)
    requires
        a <= b,
    ensures
        1 <= doubling(a) <= doubling(b),
    decreases b,
{
    if b > 0 {
        if a < b {
            lemma_doubling_grows(a, (b - 1) as nat);
        } else {
            lemma_doubling_grows((a - 1) as nat, (b - 1) as nat);
        }
    }
}

/// More failures in a row never shorten the wait, and the wait stays
/// between one second and one minute.
pub proof fn law_retry_delay_grows(a: u32, b: u32)
    requires
        a <= b,
    ensures
        retry_delay(a) <= retry_delay(b),
        OPEN_RETRY_MIN_SECS <= retry_delay(a) <= OPEN_RETRY_MAX_SECS,
{
    let da: nat = if a == 0 {
        0
    } else if a - 1 < 6 {
        (a - 1) as nat
    } else {
        6
    };
    let db: nat = if b == 0 {
        0
    } else if b - 1 < 6 {
        (b - 1) as nat
    } else {
        6
    };
    lemma_doubling_grows(da, db);
    lemma_doubling_grows(0, da);
}

/// One interface's failed opens: how many in a row, and the earliest time
/// (in milliseconds) at which to try again.
#[derive(Clone, Copy, Debug, PartialEq, Eq, Structural)]
pub struct OpenFailure {
    pub attempts: u32,
    pub next_attempt_ms: u64,
}

/// Failed interfaces, by HID path.
pub struct OpenRetries {
    pub entries: Vec<(Vec<u8>, OpenFailure)>,
}

/// Some entry is for `path`.
pub open spec fn has_path(s: Seq<(Seq<u8>, OpenFailure)>, path: Seq<u8>) -> bool {
    exists|i: int| 0 <= i < s.len() && #[trigger] s[i].0 == path
}

/// No path has two entries.
pub open spec fn paths_distinct(s: Seq<(Seq<u8>, OpenFailure)>) -> bool {
    forall|i: int, j: int| 0 <= i < j < s.len() ==> #[trigger] s[i].0 != #[trigger] s[j].0
}

/// The entries as a map from path to failure record.
pub open spec fn failures_of(s: Seq<(Seq<u8>, OpenFailure)>) -> Map<Seq<u8>, OpenFailure> {
    Map::new(
        |p: Seq<u8>| has_path(s, p),
        |p: Seq<u8>| s[choose|i: int| 0 <= i < s.len() && #[trigger] s[i].0 == p].1,
    )
}

proof fn lemma_failure_at(s: Seq<(Seq<u8>, OpenFailure)>, i: int)
    requires
        paths_distinct(s),
        0 <= i < s.len(),
    ensures
        failures_of(s).contains_key(s[i].0),
        failures_of(s)[s[i].0] == s[i].1,
{
    let p = s[i].0;
    assert(has_path(s, p));
    let k = choose|k: int| 0 <= k < s.len() && #[trigger] s[k].0 == p;
    if k != i {
        if k < i {
            assert(s[k].0 != s[i].0);
        } else {
            assert(s[i].0 != s[k].0);
        }
    }
}

proof fn lemma_failures_remove(s: Seq<(Seq<u8>, OpenFailure)>, i: int)
    requires
        paths_distinct(s),
        0 <= i < s.len(),
    ensures
        paths_distinct(s.remove(i)),
        failures_of(s.remove(i)) == failures_of(s).remove(s[i].0),
{
    let r = s.remove(i);
    assert forall|a: int, b: int| 0 <= a < b < r.len() implies #[trigger] r[a].0 != #[trigger] r[b].0 by {
        let a2 = if a < i { a } else { a + 1 };
        let b2 = if b < i { b } else { b + 1 };
        assert(r[a] == s[a2]);
        assert(r[b] == s[b2]);
        assert(s[a2].0 != s[b2].0);
    }
    assert forall|p: Seq<u8>| #[trigger] has_path(r, p) == (has_path(s, p) && p != s[i].0) by {
        if has_path(r, p) {
            let k = choose|k: int| 0 <= k < r.len() && #[trigger] r[k].0 == p;
            let k2 = if k < i { k } else { k + 1 };
            assert(s[k2].0 == p);
            if k2 < i {
                assert(s[k2].0 != s[i].0);
            } else {
                assert(s[i].0 != s[k2].0);
            }
        }
        if has_path(s, p) && p != s[i].0 {
            let k = choose|k: int| 0 <= k < s.len() && #[trigger] s[k].0 == p;
            let k2 = if k < i { k } else { k - 1 };
            assert(r[k2].0 == p);
        }
    }
    assert forall|p: Seq<u8>| #[trigger] failures_of(r).contains_key(p) implies failures_of(r)[p]
        == failures_of(s)[p] by {
        let k = choose|k: int| 0 <= k < r.len() && #[trigger] r[k].0 == p;
        lemma_failure_at(r, k);
        let k2 = if k < i { k } else { k + 1 };
        assert(r[k] == s[k2]);
        lemma_failure_at(s, k2);
    }
    assert(failures_of(r) =~= failures_of(s).remove(s[i].0));
}

proof fn lemma_failures_push(s: Seq<(Seq<u8>, OpenFailure)>, path: Seq<u8>, f: OpenFailure)
    requires
        paths_distinct(s),
        !has_path(s, path),
    ensures
        paths_distinct(s.push((path, f))),
        failures_of(s.push((path, f))) == failures_of(s).insert(path, f),
{
    let t = s.push((path, f));
    assert forall|a: int, b: int| 0 <= a < b < t.len() implies #[trigger] t[a].0 != #[trigger] t[b].0 by {
        if b == s.len() {
            assert(t[a] == s[a]);
        } else {
            assert(t[a] == s[a] && t[b] == s[b]);
        }
    }
    assert forall|p: Seq<u8>| #[trigger] has_path(t, p) == (has_path(s, p) || p == path) by {
        if has_path(s, p) {
            let k = choose|k: int| 0 <= k < s.len() && #[trigger] s[k].0 == p;
            assert(t[k].0 == p);
        }
        if p == path {
            assert(t[s.len() as int].0 == p);
        }
        if has_path(t, p) && p != path {
            let k = choose|k: int| 0 <= k < t.len() && #[trigger] t[k].0 == p;
            assert(s[k].0 == p);
        }
    }
    assert forall|p: Seq<u8>| #[trigger] failures_of(t).contains_key(p) implies failures_of(t)[p]
        == failures_of(s).insert(path, f)[p] by {
        let k = choose|k: int| 0 <= k < t.len() && #[trigger] t[k].0 == p;
        lemma_failure_at(t, k);
        if k < s.len() {
            assert(t[k] == s[k]);
            lemma_failure_at(s, k);
        }
    }
    assert(failures_of(t) =~= failures_of(s).insert(path, f));
}

/// Failed opens in a row recorded for `path`.
pub open spec fn failed_attempts(failures: Map<Seq<u8>, OpenFailure>, path: Seq<u8>) -> u32 {
    if failures.contains_key(path) {
        failures[path].attempts
    } else {
        0
    }
}

/// Whether `path` may be opened at `now_ms`: it never failed, or its wait
/// is over.
pub open spec fn may_try_at(failures: Map<Seq<u8>, OpenFailure>, path: Seq<u8>, now_ms: u64) -> bool {
    !failures.contains_key(path) || now_ms >= failures[path].next_attempt_ms
}

/// The failures after `path` failed to open at `now_ms`: one more failure
/// in a row, and no attempt before the back-off delay has passed.
pub open spec fn after_failure(failures: Map<Seq<u8>, OpenFailure>, path: Seq<u8>, now_ms: u64) -> Map<
    Seq<u8>,
    OpenFailure,
> {
    let attempts = (failed_attempts(failures, path) + 1) as u32;
    failures.insert(
        path,
        OpenFailure {
            attempts,
            next_attempt_ms: (now_ms + retry_delay(attempts) * 1000) as u64,
        },
    )
}

/// The failures after `path` failed to open at each of `times` in turn.
pub open spec fn failures_at(
    failures: Map<Seq<u8>, OpenFailure>,
    path: Seq<u8>,
    times: Seq<u64>,
) -> Map<Seq<u8>, OpenFailure>
    decreases times.len(),
{
    if times.len() == 0 {
        failures
    } else {
        after_failure(failures_at(failures, path, times.drop_last()), path, times.last())
    }
}

proof fn lemma_failures_count(
    failures: Map<Seq<u8>, OpenFailure>,
    path: Seq<u8>,
    times: Seq<u64>,
)
    requires
        !failures.contains_key(path),
        times.len() < u32::MAX,
    ensures
        failed_attempts(failures_at(failures, path, times), path) == times.len(),
        failures_at(failures, path, times).remove(path) == failures.remove(path),
    decreases times.len(),
{
    if times.len() > 0 {
        lemma_failures_count(failures, path, times.drop_last());
        let prev = failures_at(failures, path, times.drop_last());
        assert(after_failure(prev, path, times.last()).remove(path) =~= prev.remove(path));
    } else {
        assert(failures_at(failures, path, times) == failures);
    }
}

/// Open back-off across calls: after an interface has failed to open `k`
/// times in a row (its record starting from nothing, that is after a
/// success, after it vanished from enumeration, or after the table was
/// cleared), `k` failures are recorded, it may not be opened again before
/// the `k`-th back-off delay has passed since the last failure, it may be
/// from then on, and the records of other interfaces are untouched.
pub proof fn law_open_back_off(
    failures: Map<Seq<u8>, OpenFailure>,
    path: Seq<u8>,
    times: Seq<u64>,
    now_ms: u64,
)
    requires
        !failures.contains_key(path),
        1 <= times.len() < u32::MAX,
        forall|i: int| 0 <= i < times.len() ==> #[trigger] times[i] <= u64::MAX
            - OPEN_RETRY_MAX_SECS * 1000,
    ensures
        failed_attempts(failures_at(failures, path, times), path) == times.len(),
        may_try_at(failures_at(failures, path, times), path, now_ms) == (now_ms >= times.last()
            + 1000 * retry_delay(times.len() as u32)),
        failures_at(failures, path, times).remove(path) == failures.remove(path),
{
    lemma_failures_count(failures, path, times);
    lemma_failures_count(failures, path, times.drop_last());
    let k = times.len() as u32;
    law_retry_delay_grows(k, k);
    assert(times.last() == times[times.len() - 1]);
}

/// Each way an interface's record is dropped starts its back-off afresh:
/// it may be opened at once, and its next failure counts as the first.
pub proof fn law_back_off_resets(
    failures: Map<Seq<u8>, OpenFailure>,
    path: Seq<u8>,
    present: Set<Seq<u8>>,
    now_ms: u64,
)
    requires
        !present.contains(path),
    ensures
        may_try_at(failures.remove(path), path, now_ms),
        may_try_at(failures.restrict(present), path, now_ms),
        may_try_at(Map::<Seq<u8>, OpenFailure>::empty(), path, now_ms),
        failed_attempts(after_failure(failures.remove(path), path, now_ms), path) == 1,
        failed_attempts(after_failure(failures.restrict(present), path, now_ms), path) == 1,
        failed_attempts(after_failure(Map::<Seq<u8>, OpenFailure>::empty(), path, now_ms), path)
            == 1,
{
}

impl OpenRetries {
    /// The entries with their paths as byte sequences.
    pub open spec fn entry_views(&self) -> Seq<(Seq<u8>, OpenFailure)> {
        self.entries@.map_values(|e: (Vec<u8>, OpenFailure)| (e.0@, e.1))
    }

    /// One entry per path.
    pub open spec fn wf(&self) -> bool {
        paths_distinct(self.entry_views())
    }

    /// The failure record of each path that failed to open.
    pub open spec fn failures(&self) -> Map<Seq<u8>, OpenFailure> {
        failures_of(self.entry_views())
    }

    pub fn new() -> (r: Self)
        ensures
            r.wf(),
            r.failures() == Map::<Seq<u8>, OpenFailure>::empty(),
    {
        let r = OpenRetries { entries: Vec::new() };
        assert(r.failures() =~= Map::<Seq<u8>, OpenFailure>::empty());
        r
    }

    /// Forgets every failure: nothing is being looked for any more.
    pub fn clear(&mut self)
        ensures
            final(self).wf(),
            final(self).failures() == Map::<Seq<u8>, OpenFailure>::empty(),
    {
        self.entries = Vec::new();
        assert(self.failures() =~= Map::<Seq<u8>, OpenFailure>::empty());
    }

    fn find(&self, path: &[u8]) -> (r: Option<usize>)
        ensures
            r matches Some(i) ==> i < self.entry_views().len() && self.entry_views()[i as int].0
                == path@,
            r is None ==> !has_path(self.entry_views(), path@),
    {
        let mut i: usize = 0;
        while i < self.entries.len()
            invariant
                0 <= i <= self.entries@.len(),
                forall|k: int| 0 <= k < i ==> #[trigger] self.entry_views()[k].0 != path@,
            decreases self.entries@.len() - i,
        {
            if crate::bytes::same_bytes(self.entries[i].0.as_slice(), path) {
                return Some(i);
            }
            i = i + 1;
        }
        None
    }

    /// Whether the interface at `path` may be opened at `now_ms`: it never
    /// failed, or its wait is over.
    pub fn may_try(&self, path: &[u8], now_ms: u64) -> (r: bool)
        requires
            self.wf(),
        ensures
            r == (!self.failures().contains_key(path@) || now_ms >= self.failures()[path@].next_attempt_ms),
            r == may_try_at(self.failures(), path@, now_ms),
    {
        match self.find(path) {
            Some(i) => {
                proof {
                    lemma_failure_at(self.entry_views(), i as int);
                }
                now_ms >= self.entries[i].1.next_attempt_ms
            },
            None => true,
        }
    }

    /// The failed opens in a row recorded for `path`.
    pub fn attempts(&self, path: &[u8]) -> (r: u32)
        requires
            self.wf(),
        ensures
            r == (if self.failures().contains_key(path@) {
                self.failures()[path@].attempts
            } else {
                0
            }),
    {
        match self.find(path) {
            Some(i) => {
                proof {
                    lemma_failure_at(self.entry_views(), i as int);
                }
                self.entries[i].1.attempts
            },
            None => 0,
        }
    }

    /// The interface opened: its failures are forgotten.
    pub fn record_success(&mut self, path: &[u8])
        requires
            old(self).wf(),
        ensures
            final(self).wf(),
            final(self).failures() == old(self).failures().remove(path@),
    {
        match self.find(path) {
            Some(i) => {
                proof {
                    lemma_failures_remove(self.entry_views(), i as int);
                }
                let ghost before = self.entry_views();
                self.entries.remove(i);
                assert(self.entry_views() =~= before.remove(i as int));
            },
            None => {
                assert(old(self).failures().remove(path@) =~= old(self).failures());
            },
        }
    }

    /// The interface failed to open at `now_ms`: one more failure in a
    /// row, and no new attempt before the back-off delay has passed.
    /// Returns that delay in seconds.
    pub fn record_failure(&mut self, path: &[u8], now_ms: u64) -> (r: u64)
        requires
            old(self).wf(),
            now_ms <= u64::MAX - OPEN_RETRY_MAX_SECS * 1000,
            old(self).failures().contains_key(path@) ==> old(self).failures()[path@].attempts
                < u32::MAX,
        ensures
            final(self).wf(),
            ({
                let attempts = if old(self).failures().contains_key(path@) {
                    (old(self).failures()[path@].attempts + 1) as u32
                } else {
                    1u32
                };
                &&& r == retry_delay(attempts)
                &&& final(self).failures() == old(self).failures().insert(
                    path@,
                    OpenFailure { attempts, next_attempt_ms: (now_ms + r * 1000) as u64 },
                )
            }),
            final(self).failures() == after_failure(old(self).failures(), path@, now_ms),
    {
        let ghost old_failures = self.failures();
        let previous: u32 = match self.find(path) {
            Some(i) => {
                proof {
                    lemma_failure_at(self.entry_views(), i as int);
                    lemma_failures_remove(self.entry_views(), i as int);
                }
                let ghost before = self.entry_views();
                let (_, failure) = self.entries.remove(i);
                assert(self.entry_views() =~= before.remove(i as int));
                failure.attempts
            },
            None => {
                assert(old_failures.remove(path@) =~= old_failures);
                0
            },
        };
        let attempts = previous + 1;
        let delay = retry_delay_secs(attempts);
        let failure = OpenFailure { attempts, next_attempt_ms: now_ms + delay * 1000 };
        let ghost before = self.entry_views();
        assert(!has_path(before, path@)) by {
            if has_path(before, path@) {
                assert(failures_of(before).contains_key(path@));
            }
        }
        proof {
            lemma_failures_push(before, path@, failure);
        }
        let key = vstd::slice::slice_to_vec(path);
        self.entries.push((key, failure));
        assert(self.entry_views() =~= before.push((path@, failure)));
        assert(old_failures.remove(path@).insert(path@, failure) =~= old_failures.insert(
            path@,
            failure,
        ));
        delay
    }

    /// Keeps only the failures of interfaces still enumerated, so one that
    /// vanished gets a clean slate.
    pub fn retain_present(&mut self, present: &[Vec<u8>])
        requires
            old(self).wf(),
        ensures
            final(self).wf(),
            final(self).failures() == old(self).failures().restrict(
                Set::new(|p: Seq<u8>| exists|j: int| 0 <= j < present@.len() && #[trigger] present@[j]@ == p),
            ),
    {
        let ghost keep = Set::new(
            |p: Seq<u8>| exists|j: int| 0 <= j < present@.len() && #[trigger] present@[j]@ == p,
        );
        let mut i: usize = 0;
        while i < self.entries.len()
            invariant
                0 <= i <= self.entries@.len(),
                self.wf(),
                keep == Set::new(
                    |p: Seq<u8>| exists|j: int| 0 <= j < present@.len() && #[trigger] present@[j]@ == p,
                ),
                forall|k: int| 0 <= k < i ==> keep.contains(#[trigger] self.entry_views()[k].0),
                self.failures().restrict(keep) == old(self).failures().restrict(keep),
                forall|p: Seq<u8>|
                    #[trigger] self.failures().contains_key(p) && !keep.contains(p) ==> exists|
                        k: int,
                    | i <= k < self.entry_views().len() && #[trigger] self.entry_views()[k].0 == p,
                forall|p: Seq<u8>| #[trigger] self.failures().contains_key(p) ==> old(self).failures().contains_key(p),
            decreases self.entries@.len() - i,
        {
            let mut found = false;
            let mut j: usize = 0;
            while j < present.len()
                invariant
                    0 <= j <= present@.len(),
                    i < self.entries@.len(),
                    found == exists|m: int| 0 <= m < j && #[trigger] present@[m]@ == self.entry_views()[i as int].0,
                decreases present@.len() - j,
            {
                if crate::bytes::same_bytes(present[j].as_slice(), self.entries[i].0.as_slice()) {
                    found = true;
                }
                j = j + 1;
            }
            if found {
                proof {
                    let m = choose|m: int|
                        0 <= m < present@.len() && #[trigger] present@[m]@ == self.entry_views()[i as int].0;
                    assert(keep.contains(self.entry_views()[i as int].0));
                }
                i = i + 1;
            } else {
                let ghost before = self.entry_views();
                let ghost gone = before[i as int].0;
                proof {
                    lemma_failures_remove(before, i as int);
                    if keep.contains(gone) {
                        let m = choose|m: int| 0 <= m < present@.len() && #[trigger] present@[m]@ == gone;
                        assert(false);
                    }
                }
                self.entries.remove(i);
                assert(self.entry_views() =~= before.remove(i as int));
                assert(self.failures().restrict(keep) =~= failures_of(before).restrict(keep));
                assert forall|p: Seq<u8>|
                    #[trigger] self.failures().contains_key(p) && !keep.contains(p) implies exists|
                        k: int,
                    | i <= k < self.entry_views().len() && #[trigger] self.entry_views()[k].0 == p by {
                    let k = choose|k: int| i <= k < before.len() && #[trigger] before[k].0 == p;
                    assert(k != i);
                    assert(self.entry_views()[k - 1].0 == p);
                }
            }
        }
        assert forall|p: Seq<u8>| #[trigger] self.failures().contains_key(p) implies keep.contains(p) by {
            if !keep.contains(p) {
                let k = choose|k: int| i <= k < self.entry_views().len() && #[trigger] self.entry_views()[k].0 == p;
            }
        }
        assert(self.failures() =~= self.failures().restrict(keep));
    }
}

} // verus!
