use vstd::prelude::*;
use crate::score::{PointValues, Score, chain_value, spec_chain_value};

verus! {

/// Whether a ghost hunts the player or flees.
#[derive(Clone, Copy, PartialEq, Eq, Structural, Debug, Hash)]
pub enum AttackState {
    Attacking,
    Scared,
}

/// Where a ghost is in its life cycle: in the cage, leaving it, roaming,
/// or returning home after being eaten.
#[derive(Clone, Copy, PartialEq, Eq, Structural, Debug, Hash)]
pub enum ReleaseState {
    Caged,
    Releasing,
    Released,
    Respawning,
}

impl Default for AttackState {
    fn default() -> (r: Self)
        ensures
            r == AttackState::Attacking,
    {
        Self::Attacking
    }
}

impl Default for ReleaseState {
    fn default() -> (r: Self)
        ensures
            r == ReleaseState::Caged,
    {
        Self::Caged
    }
}

/// How many ghosts have been eaten since the last power-up.
#[derive(Clone, Copy, PartialEq, Eq, Structural, Debug)]
pub struct GhostChain(pub u8);

impl Default for GhostChain {
    fn default() -> (r: Self)
        ensures
            r.0 == 0,
    {
        Self(0)
    }
}

// ---------------------------------------------------------------------------
// Power-ups
// ---------------------------------------------------------------------------

/// Scares every ghost: each attacking ghost becomes scared.
pub fn scare_ghosts(states: &mut Vec<AttackState>)
    ensures
        final(states)@.len() == old(states)@.len(),
        forall|i: int| 0 <= i < final(states)@.len() ==> #[trigger] final(states)@[i] == AttackState::Scared,
{
    let mut i: usize = 0;
    while i < states.len()
        invariant
            0 <= i <= states@.len(),
            states@.len() == old(states)@.len(),
            forall|k: int| 0 <= k < i ==> #[trigger] states@[k] == AttackState::Scared,
            forall|k: int| i <= k < states@.len() ==> #[trigger] states@[k] == old(states)@[k],
        decreases states@.len() - i,
    {
        if states[i] == AttackState::Attacking {
            states.set(i, AttackState::Scared);
        }
        i = i + 1;
    }
}

/// Whether some ghost is scared.
pub fn any_scared(states: &Vec<AttackState>) -> (r: bool)
    ensures
        r <==> exists|i: int| 0 <= i < states@.len() && #[trigger] states@[i] == AttackState::Scared,
{
    let mut i: usize = 0;
    while i < states.len()
        invariant
            0 <= i <= states@.len(),
            forall|k: int| 0 <= k < i ==> #[trigger] states@[k] != AttackState::Scared,
        decreases states@.len() - i,
    {
        if states[i] == AttackState::Scared {
            return true;
        }
        i = i + 1;
    }
    false
}

/// Ends the scare: each scared ghost attacks again.
pub fn calm_ghosts(states: &mut Vec<AttackState>)
    ensures
        final(states)@.len() == old(states)@.len(),
        forall|i: int| 0 <= i < final(states)@.len() ==> #[trigger] final(states)@[i] == AttackState::Attacking,
{
    let mut i: usize = 0;
    while i < states.len()
        invariant
            0 <= i <= states@.len(),
            states@.len() == old(states)@.len(),
            forall|k: int| 0 <= k < i ==> #[trigger] states@[k] == AttackState::Attacking,
            forall|k: int| i <= k < states@.len() ==> #[trigger] states@[k] == old(states)@[k],
        decreases states@.len() - i,
    {
        if states[i] == AttackState::Scared {
            states.set(i, AttackState::Attacking);
        }
        i = i + 1;
    }
}

// ---------------------------------------------------------------------------
// Collisions between the player and the ghosts
// ---------------------------------------------------------------------------

/// What the collision step knows of one ghost.
#[derive(Clone, Copy, PartialEq, Eq, Structural, Debug)]
pub struct GhostContact {
    /// The ghost touches the player.
    pub collided: bool,
    pub attack: AttackState,
    pub release: ReleaseState,
}

/// What a collision did with one ghost.
#[derive(Clone, Copy, PartialEq, Eq, Structural, Debug)]
pub enum GhostHit {
    /// The ghost does not touch the player.
    Missed,
    /// The ghost touches the player while already returning home.
    Ignored,
    /// An attacking ghost caught the player: the game is lost.
    CaughtPlayer,
    /// The player ate a scared ghost, worth the given points; the ghost
    /// now returns home.
    Eaten(u64),
}

/// The result of one collision step.
pub struct CollisionOutcome {
    /// One entry per ghost, in order.
    pub hits: Vec<GhostHit>,
    /// The points earned by the ghosts eaten.
    pub points: u64,
    /// The chain counter after the ghosts eaten.
    pub chain: u8,
}

/// The player eats `g`: it touches a scared ghost not yet returning home.
pub open spec fn is_eaten(g: GhostContact) -> bool {
    g.collided && g.attack == AttackState::Scared && g.release != ReleaseState::Respawning
}

/// How many of the first `i` ghosts are eaten.
pub open spec fn eaten_before(gs: Seq<GhostContact>, i: int) -> nat
    decreases i,
{
    if i <= 0 {
        0
    } else {
        eaten_before(gs, i - 1) + (if is_eaten(gs[i - 1]) { 1nat } else { 0nat })
    }
}

/// The points of `count` ghosts eaten in a row, starting at `chain`.
pub open spec fn chain_points(v: PointValues, chain: int, count: nat) -> nat
    decreases count,
{
    if count == 0 {
        0
    } else {
        chain_points(v, chain, (count - 1) as nat) + spec_chain_value(v, chain + count - 1) as nat
    }
}

/// What happens to ghost `i` of `gs` when the chain stood at `chain`.
pub open spec fn expected_hit(v: PointValues, gs: Seq<GhostContact>, chain: int, i: int) -> GhostHit {
    let g = gs[i];
    if !g.collided {
        GhostHit::Missed
    } else if g.attack == AttackState::Attacking {
        GhostHit::CaughtPlayer
    } else if g.release == ReleaseState::Respawning {
        GhostHit::Ignored
    } else {
        GhostHit::Eaten(spec_chain_value(v, chain + eaten_before(gs, i)))
    }
}

/// Resolves the player's collisions with the ghosts, in order.
///
/// Touching an attacking ghost loses the game; touching a scared ghost eats
/// it, unless it is already returning home.  The ghosts eaten since the last
/// power-up are worth `first_ghost`, `second_ghost`, `third_ghost`, then
/// `fourth_ghost` each, and the chain counts up by one per ghost eaten.
/// `None` when the chain counter or the points would overflow.
pub fn resolve_ghost_collisions(
    ghosts: &Vec<GhostContact>,
    chain: u8,
    values: &PointValues,
) -> (r: Option<CollisionOutcome>)
    ensures
        ({
            let n = ghosts@.len() as int;
            let eaten = eaten_before(ghosts@, n);
            &&& r is None <==> (chain + eaten > u8::MAX || chain_points(*values, chain as int, eaten) > u64::MAX)
            &&& r matches Some(o) ==> {
                &&& o.hits@.len() == n
                &&& forall|i: int| 0 <= i < n ==> #[trigger] o.hits@[i] == expected_hit(*values, ghosts@, chain as int, i)
                &&& forall|i: int|
                    0 <= i < n && ghosts@[i].collided && ghosts@[i].attack == AttackState::Attacking
                        ==> #[trigger] o.hits@[i] == GhostHit::CaughtPlayer
                &&& o.chain == chain + eaten
                &&& o.points == chain_points(*values, chain as int, eaten)
            }
        }),
{
    let mut hits: Vec<GhostHit> = Vec::new();
    let mut points: u64 = 0;
    let mut cur: u8 = chain;
    let mut i: usize = 0;
    let ghost gs = ghosts@;
    while i < ghosts.len()
        invariant
            gs == ghosts@,
            0 <= i <= gs.len(),
            hits@.len() == i,
            forall|k: int| 0 <= k < i ==> #[trigger] hits@[k] == expected_hit(*values, gs, chain as int, k),
            cur == chain + eaten_before(gs, i as int),
            points == chain_points(*values, chain as int, eaten_before(gs, i as int)),
        decreases gs.len() - i,
    {
        let g = ghosts[i];
        if !g.collided {
            hits.push(GhostHit::Missed);
        } else if g.attack == AttackState::Attacking {
            hits.push(GhostHit::CaughtPlayer);
        } else if g.release == ReleaseState::Respawning {
            hits.push(GhostHit::Ignored);
        } else {
            let value = chain_value(values, cur);
            let ghost e = eaten_before(gs, i as int);
            match points.checked_add(value) {
                None => {
                    proof {
                        lemma_eaten_before_mono(gs, i as int + 1, gs.len() as int);
                        lemma_chain_points_mono(*values, chain as int, e + 1, eaten_before(gs, gs.len() as int));
                    }
                    return None;
                },
                Some(p) => {
                    points = p;
                },
            }
            if cur == 255 {
                proof {
                    lemma_eaten_before_mono(gs, i as int + 1, gs.len() as int);
                }
                return None;
            }
            cur = cur + 1;
            hits.push(GhostHit::Eaten(value));
        }
        proof {
            assert(eaten_before(gs, i as int + 1) == eaten_before(gs, i as int) + (if is_eaten(gs[i as int]) {
                1nat
            } else {
                0nat
            }));
        }
        i = i + 1;
    }
    proof {
        assert(gs.len() == ghosts@.len());
    }
    Some(CollisionOutcome { hits, points, chain: cur })
}

proof fn lemma_eaten_before_mono(gs: Seq<GhostContact>, i: int, j: int)
    requires
        0 <= i <= j,
    ensures
        eaten_before(gs, i) <= eaten_before(gs, j),
    decreases j - i,
{
    if i < j {
        lemma_eaten_before_mono(gs, i, j - 1);
    }
}

proof fn lemma_chain_points_mono(v: PointValues, chain: int, a: nat, b: nat)
    requires
        a <= b,
    ensures
        chain_points(v, chain, a) <= chain_points(v, chain, b),
    decreases b - a,
{
    if a < b {
        lemma_chain_points_mono(v, chain, a, (b - 1) as nat);
    }
}

// ---------------------------------------------------------------------------
// Power-ups eaten
// ---------------------------------------------------------------------------

/// The player eats a power-up: it scores `values.power_up` and starts a new
/// ghost chain.  Fails, changing nothing, when the score would overflow.
pub fn consume_power_up(score: &mut Score, chain: &mut GhostChain, values: &PointValues) -> (ok: bool)
    ensures
        ok <==> old(score).0 + values.power_up <= u64::MAX,
        ok ==> final(score).0 == old(score).0 + values.power_up && final(chain).0 == 0,
        !ok ==> *final(score) == *old(score) && *final(chain) == *old(chain),
{
    if score.add_points(values.power_up) {
        chain.0 = 0;
        true
    } else {
        false
    }
}

/// The ghost reached home after being eaten: it is caged and attacks again.
pub fn arrive_home(attack: &mut AttackState, release: &mut ReleaseState)
    ensures
        *final(attack) == AttackState::Attacking,
        *final(release) == ReleaseState::Caged,
{
    *release = ReleaseState::Caged;
    *attack = AttackState::Attacking;
}

/// Puts a ghost back for a new game: attacking, and roaming if it starts
/// outside the cage, caged otherwise.
pub fn reset_ghost(attack: &mut AttackState, release: &mut ReleaseState, starts_outside: bool)
    ensures
        *final(attack) == AttackState::Attacking,
        *final(release) == (if starts_outside { ReleaseState::Released } else { ReleaseState::Caged }),
{
    *attack = AttackState::Attacking;
    *release = if starts_outside { ReleaseState::Released } else { ReleaseState::Caged };
}

/// After the collision step, what becomes of each ghost: the eaten ones
/// return home.
pub fn apply_hits(release: &mut Vec<ReleaseState>, hits: &Vec<GhostHit>)
    requires
        old(release)@.len() == hits@.len(),
    ensures
        final(release)@.len() == old(release)@.len(),
        forall|i: int|
            0 <= i < hits@.len() ==> #[trigger] final(release)@[i] == (if hits@[i] is Eaten {
                ReleaseState::Respawning
            } else {
                old(release)@[i]
            }),
{
    let mut i: usize = 0;
    while i < hits.len()
        invariant
            0 <= i <= hits@.len(),
            release@.len() == hits@.len(),
            forall|k: int|
                0 <= k < i ==> #[trigger] release@[k] == (if hits@[k] is Eaten {
                    ReleaseState::Respawning
                } else {
                    old(release)@[k]
                }),
            forall|k: int| i <= k < release@.len() ==> #[trigger] release@[k] == old(release)@[k],
        decreases hits@.len() - i,
    {
        if let GhostHit::Eaten(_) = hits[i] {
            release.set(i, ReleaseState::Respawning);
        }
        i = i + 1;
    }
}

// ---------------------------------------------------------------------------
// Leaving the cage
// ---------------------------------------------------------------------------

/// Where a ghost stands, across, relative to the cage's exit.
#[derive(Clone, Copy, PartialEq, Eq, Structural, Debug)]
pub enum Side {
    LeftOf,
    Level,
    RightOf,
}

/// What the release step knows of one ghost.
#[derive(Clone, Copy, PartialEq, Eq, Structural, Debug)]
pub struct ReleaseView {
    pub state: ReleaseState,
    /// Where the ghost stands across, relative to the exit.
    pub across: Side,
    /// Whether the ghost is still below the exit.
    pub below_exit: bool,
}

/// The one thing the release step does this frame.
#[derive(Clone, Copy, PartialEq, Eq, Structural, Debug)]
pub enum ReleaseAction {
    /// No ghost is caged or leaving.
    Idle,
    /// Advance the cage timer; when it runs out, the given ghost starts
    /// leaving and the timer restarts.
    TickCageTimer(usize),
    /// The given ghost moves one step right, towards the exit.
    StepRight(usize),
    /// The given ghost moves one step left, towards the exit.
    StepLeft(usize),
    /// The given ghost moves one step up, towards the exit.
    StepUp(usize),
    /// The given ghost is out: it roams from now on.
    Release(usize),
}

/// The first ghost of `gs` in state `st`, if any.
pub open spec fn first_in(gs: Seq<ReleaseView>, st: ReleaseState, k: int) -> bool {
    &&& 0 <= k < gs.len()
    &&& gs[k].state == st
    &&& forall|j: int| 0 <= j < k ==> #[trigger] gs[j].state != st
}

pub open spec fn some_in(gs: Seq<ReleaseView>, st: ReleaseState) -> bool {
    exists|k: int| 0 <= k < gs.len() && #[trigger] gs[k].state == st
}

/// What the leaving ghost at `k` does.
pub open spec fn leaving_action(g: ReleaseView, k: usize) -> ReleaseAction {
    match g.across {
        Side::LeftOf => ReleaseAction::StepRight(k),
        Side::RightOf => ReleaseAction::StepLeft(k),
        Side::Level => if g.below_exit { ReleaseAction::StepUp(k) } else { ReleaseAction::Release(k) },
    }
}

/// `r` is the release step's action for `gs`: the first leaving ghost
/// moves on, or else the cage timer runs for the first caged ghost.
pub open spec fn is_release_action(gs: Seq<ReleaseView>, r: ReleaseAction) -> bool {
    &&& some_in(gs, ReleaseState::Releasing) ==> exists|k: usize|
        first_in(gs, ReleaseState::Releasing, k as int) && r == leaving_action(gs[k as int], k)
    &&& !some_in(gs, ReleaseState::Releasing) && some_in(gs, ReleaseState::Caged) ==> exists|k: usize|
        first_in(gs, ReleaseState::Caged, k as int) && r == ReleaseAction::TickCageTimer(k)
    &&& !some_in(gs, ReleaseState::Releasing) && !some_in(gs, ReleaseState::Caged) ==> r == ReleaseAction::Idle
}

/// The states after the release step's action: a caged ghost starts
/// leaving when the cage timer ran out, a ghost out of the cage roams; moves
/// change no state.
pub open spec fn states_after_release(states: Seq<ReleaseState>, a: ReleaseAction, timer_done: bool) -> Seq<
    ReleaseState,
> {
    match a {
        ReleaseAction::TickCageTimer(k) => if timer_done && k < states.len() {
            states.update(k as int, ReleaseState::Releasing)
        } else {
            states
        },
        ReleaseAction::Release(k) => if k < states.len() {
            states.update(k as int, ReleaseState::Released)
        } else {
            states
        },
        _ => states,
    }
}

/// The one ghost an action concerns, if any.
pub open spec fn action_ghost(a: ReleaseAction) -> Option<usize> {
    match a {
        ReleaseAction::Idle => None,
        ReleaseAction::TickCageTimer(k) => Some(k),
        ReleaseAction::StepRight(k) => Some(k),
        ReleaseAction::StepLeft(k) => Some(k),
        ReleaseAction::StepUp(k) => Some(k),
        ReleaseAction::Release(k) => Some(k),
    }
}

/// Applies the state change of the release step's action.  `timer_done`
/// says whether the cage timer ran out when the action asked to advance it.
pub fn apply_release(states: &mut Vec<ReleaseState>, a: ReleaseAction, timer_done: bool)
    ensures
        final(states)@ == states_after_release(old(states)@, a, timer_done),
        final(states)@.len() == old(states)@.len(),
        forall|k: usize|
            a == ReleaseAction::Release(k) && k < old(states)@.len() ==> #[trigger] final(states)@[k as int]
                == ReleaseState::Released,
{
    match a {
        ReleaseAction::TickCageTimer(k) => {
            if timer_done && k < states.len() {
                states.set(k, ReleaseState::Releasing);
            }
        },
        ReleaseAction::Release(k) => {
            if k < states.len() {
                states.set(k, ReleaseState::Released);
            }
        },
        _ => {},
    }
}

/// Ghosts leave the cage one at a time.  While one is leaving it walks to
/// the exit column, then up to the exit, then roams; otherwise the cage
/// timer runs for the first caged ghost.
pub fn next_release_action(ghosts: &Vec<ReleaseView>) -> (r: ReleaseAction)
    ensures
        is_release_action(ghosts@, r),
{
    let mut first_caged: Option<usize> = None;
    let mut i: usize = 0;
    while i < ghosts.len()
        invariant
            0 <= i <= ghosts@.len(),
            forall|j: int| 0 <= j < i ==> #[trigger] ghosts@[j].state != ReleaseState::Releasing,
            first_caged matches Some(c) ==> first_in(ghosts@, ReleaseState::Caged, c as int) && c < i,
            first_caged is None ==> forall|j: int| 0 <= j < i ==> #[trigger] ghosts@[j].state != ReleaseState::Caged,
        decreases ghosts@.len() - i,
    {
        let g = ghosts[i];
        if g.state == ReleaseState::Releasing {
            let r = match g.across {
                Side::LeftOf => ReleaseAction::StepRight(i),
                Side::RightOf => ReleaseAction::StepLeft(i),
                Side::Level => if g.below_exit { ReleaseAction::StepUp(i) } else { ReleaseAction::Release(i) },
            };
            proof {
                assert(first_in(ghosts@, ReleaseState::Releasing, i as int));
            }
            return r;
        }
        if g.state == ReleaseState::Caged && first_caged.is_none() {
            first_caged = Some(i);
        }
        i = i + 1;
    }
    match first_caged {
        Some(c) => {
            proof {
                assert(first_in(ghosts@, ReleaseState::Caged, c as int));
            }
            ReleaseAction::TickCageTimer(c)
        },
        None => ReleaseAction::Idle,
    }
}

// ---------------------------------------------------------------------------
// Laws
// ---------------------------------------------------------------------------

/// The points of the eaten ghosts among `hits`.
pub open spec fn hit_points(hits: Seq<GhostHit>) -> nat
    decreases hits.len(),
{
    if hits.len() == 0 {
        0
    } else {
        hit_points(hits.drop_last()) + match hits.last() {
            GhostHit::Eaten(p) => p as nat,
            _ => 0nat,
        }
    }
}

/// The hits of the first `n` ghosts of `gs`.
pub open spec fn expected_hits(v: PointValues, gs: Seq<GhostContact>, chain: int, n: int) -> Seq<GhostHit> {
    Seq::new(n as nat, |i: int| expected_hit(v, gs, chain, i))
}

/// The points a collision step earns are the sum of the points of the
/// ghosts it reports eaten.
pub proof fn law_points_are_sum_of_hits(v: PointValues, gs: Seq<GhostContact>, chain: int, n: int)
    requires
        0 <= n <= gs.len(),
    ensures
        hit_points(expected_hits(v, gs, chain, n)) == chain_points(v, chain, eaten_before(gs, n)),
    decreases n,
{
    if n > 0 {
        law_points_are_sum_of_hits(v, gs, chain, n - 1);
        let s = expected_hits(v, gs, chain, n);
        assert(s.drop_last() =~= expected_hits(v, gs, chain, n - 1));
        assert(s.last() == expected_hit(v, gs, chain, n - 1));
    }
}

/// A ghost that was just eaten returns home, and touching it again while
/// it does earns nothing: the collision is ignored.
pub proof fn law_eaten_ghost_is_not_eaten_again(
    v: PointValues,
    gs: Seq<GhostContact>,
    chain: int,
    i: int,
    later_chain: int,
)
    requires
        0 <= i < gs.len(),
        expected_hit(v, gs, chain, i) is Eaten,
    ensures
        expected_hit(
            v,
            gs.update(i, GhostContact { release: ReleaseState::Respawning, ..gs[i] }),
            later_chain,
            i,
        ) == GhostHit::Ignored,
{
}

/// After a power-up restarts the chain, the first ghost eaten is worth
/// `first_ghost`, the second `second_ghost`, the third `third_ghost` and
/// every later one `fourth_ghost`.
pub proof fn law_chain_after_power_up(v: PointValues, gs: Seq<GhostContact>, i: int)
    requires
        0 <= i < gs.len(),
        is_eaten(gs[i]),
    ensures
        expected_hit(v, gs, 0, i) == GhostHit::Eaten(
            if eaten_before(gs, i) == 0 {
                v.first_ghost
            } else if eaten_before(gs, i) == 1 {
                v.second_ghost
            } else if eaten_before(gs, i) == 2 {
                v.third_ghost
            } else {
                v.fourth_ghost
            },
        ),
{
}

/// At most one ghost of `states` is leaving the cage.
pub open spec fn at_most_one_leaving(states: Seq<ReleaseState>) -> bool {
    forall|i: int, j: int|
        0 <= i < states.len() && 0 <= j < states.len() && #[trigger] states[i] == ReleaseState::Releasing
            && #[trigger] states[j] == ReleaseState::Releasing ==> i == j
}

pub open spec fn view_states(gs: Seq<ReleaseView>) -> Seq<ReleaseState> {
    gs.map_values(|g: ReleaseView| g.state)
}

/// One release step keeps at most one ghost leaving the cage, and changes
/// only the one ghost its action names: no other ghost's state changes, and
/// no other ghost moves.
pub proof fn law_release_one_at_a_time(gs: Seq<ReleaseView>, a: ReleaseAction, timer_done: bool)
    requires
        is_release_action(gs, a),
        at_most_one_leaving(view_states(gs)),
    ensures
        at_most_one_leaving(states_after_release(view_states(gs), a, timer_done)),
        forall|i: int|
            0 <= i < gs.len() && action_ghost(a) != Some(i as usize) ==> #[trigger] states_after_release(
                view_states(gs),
                a,
                timer_done,
            )[i] == gs[i].state,
        states_after_release(view_states(gs), a, timer_done).len() == gs.len(),
{
    let st = view_states(gs);
    let after = states_after_release(st, a, timer_done);
    assert(st.len() == gs.len());
    if some_in(gs, ReleaseState::Releasing) {
        let k = choose|k: usize| first_in(gs, ReleaseState::Releasing, k as int) && a == leaving_action(gs[k as int], k);
        assert(action_ghost(a) == Some(k));
    } else if some_in(gs, ReleaseState::Caged) {
        let k = choose|k: usize| first_in(gs, ReleaseState::Caged, k as int) && a == ReleaseAction::TickCageTimer(k);
        assert forall|i: int| 0 <= i < st.len() implies #[trigger] st[i] != ReleaseState::Releasing by {
            assert(gs[i].state == st[i]);
        }
        assert forall|i: int, j: int|
            0 <= i < after.len() && 0 <= j < after.len() && #[trigger] after[i] == ReleaseState::Releasing
                && #[trigger] after[j] == ReleaseState::Releasing implies i == j by {
            if i != k as int {
                assert(after[i] == st[i]);
            }
            if j != k as int {
                assert(after[j] == st[j]);
            }
        }
    }
    assert forall|i: int|
        0 <= i < gs.len() && action_ghost(a) != Some(i as usize) implies #[trigger] after[i] == gs[i].state by {
        assert(st[i] == gs[i].state);
    }
}

/// The contacts of a second collision step with the ghosts in the same
/// places: the ghosts eaten by the first step now return home.
pub open spec fn contacts_after_hits(gs: Seq<GhostContact>, hits: Seq<GhostHit>) -> Seq<GhostContact> {
    Seq::new(
        gs.len(),
        |i: int|
            if hits[i] is Eaten {
                GhostContact { release: ReleaseState::Respawning, ..gs[i] }
            } else {
                gs[i]
            },
    )
}

/// When no attacking ghost touches the player, a second collision step with
/// the ghosts in the same places changes nothing: it eats no ghost, earns no
/// points, leaves the chain as it is and sends no ghost home.
pub proof fn law_second_collision_step_changes_nothing(v: PointValues, gs: Seq<GhostContact>, chain: int, chain2: int)
    requires
        forall|i: int| 0 <= i < gs.len() && (#[trigger] gs[i]).collided ==> gs[i].attack == AttackState::Scared,
    ensures
        ({
            let gs2 = contacts_after_hits(gs, expected_hits(v, gs, chain, gs.len() as int));
            &&& forall|i: int|
                0 <= i < gs.len() ==> #[trigger] expected_hit(v, gs2, chain2, i) == GhostHit::Missed
                    || expected_hit(v, gs2, chain2, i) == GhostHit::Ignored
            &&& eaten_before(gs2, gs.len() as int) == 0
            &&& chain_points(v, chain2, eaten_before(gs2, gs.len() as int)) == 0
            &&& contacts_after_hits(gs2, expected_hits(v, gs2, chain2, gs.len() as int)) == gs2
        }),
{
    let n = gs.len() as int;
    let gs2 = contacts_after_hits(gs, expected_hits(v, gs, chain, n));
    assert forall|i: int| 0 <= i < n implies !is_eaten(#[trigger] gs2[i]) by {
        let h = expected_hits(v, gs, chain, n)[i];
        assert(h == expected_hit(v, gs, chain, i));
    }
    assert forall|m: int| 0 <= m <= n implies #[trigger] eaten_before(gs2, m) == 0 by {
        lemma_none_eaten(gs2, m);
    }
    let hits2 = expected_hits(v, gs2, chain2, n);
    assert forall|i: int| 0 <= i < n implies #[trigger] expected_hit(v, gs2, chain2, i) == GhostHit::Missed
        || expected_hit(v, gs2, chain2, i) == GhostHit::Ignored by {
        let h = expected_hits(v, gs, chain, n)[i];
        assert(h == expected_hit(v, gs, chain, i));
    }
    assert(contacts_after_hits(gs2, hits2) =~= gs2);
}

proof fn lemma_none_eaten(gs: Seq<GhostContact>, m: int)
    requires
        0 <= m <= gs.len(),
        forall|i: int| 0 <= i < gs.len() ==> !is_eaten(#[trigger] gs[i]),
    ensures
        eaten_before(gs, m) == 0,
    decreases m,
{
    if m > 0 {
        lemma_none_eaten(gs, m - 1);
    }
}

/// A ghost that touches the player while attacking catches the player,
/// whatever its release state, even on its way home; the only touching ghost
/// that is ignored is a scared one returning home.
pub proof fn law_attacking_touch_catches(v: PointValues, gs: Seq<GhostContact>, chain: int, i: int)
    requires
        0 <= i < gs.len(),
    ensures
        gs[i].collided && gs[i].attack == AttackState::Attacking ==> expected_hit(v, gs, chain, i)
            == GhostHit::CaughtPlayer,
        expected_hit(v, gs, chain, i) == GhostHit::CaughtPlayer ==> gs[i].collided && gs[i].attack
            == AttackState::Attacking,
        expected_hit(v, gs, chain, i) == GhostHit::Ignored <==> (gs[i].collided && gs[i].attack
            == AttackState::Scared && gs[i].release == ReleaseState::Respawning),
        expected_hit(v, gs, chain, i) == GhostHit::Missed <==> !gs[i].collided,
{
}

/// The cage timer's flag matters only when the action asks to advance the
/// timer; a leaving ghost that reaches the exit roams from then on, and no
/// other ghost changes.
pub proof fn law_release_ignores_timer(states: Seq<ReleaseState>, a: ReleaseAction, k: usize)
    ensures
        !(a is TickCageTimer) ==> states_after_release(states, a, true) == states_after_release(
            states,
            a,
            false,
        ),
        k < states.len() ==> states_after_release(states, ReleaseAction::Release(k), false)[k as int]
            == ReleaseState::Released,
        k < states.len() ==> states_after_release(states, ReleaseAction::Release(k), true)[k as int]
            == ReleaseState::Released,
        states_after_release(states, ReleaseAction::TickCageTimer(k), false) == states,
        k < states.len() ==> states_after_release(states, ReleaseAction::TickCageTimer(k), true)[k as int]
            == ReleaseState::Releasing,
        forall|td: bool, j: int|
            0 <= j < states.len() && j != k ==> #[trigger] states_after_release(
                states,
                ReleaseAction::Release(k),
                td,
            )[j] == states[j],
        forall|td: bool| #[trigger] states_after_release(states, ReleaseAction::Release(k), td).len() == states.len(),
{
}

/// The ghosts eaten since the last power-up are worth, one after the
/// other, the first, second, third and then the fourth ghost's points, the
/// fourth for every later ghost too.
pub proof fn law_ghost_values(v: PointValues, c: int)
    requires
        c >= 0,
    ensures
        chain_points(v, 0, 1) == v.first_ghost,
        chain_points(v, 1, 1) == v.second_ghost,
        chain_points(v, 2, 1) == v.third_ghost,
        c >= 3 ==> chain_points(v, c, 1) == v.fourth_ghost,
        chain_points(v, 0, 4) == v.first_ghost + v.second_ghost + v.third_ghost + v.fourth_ghost,
{
    reveal_with_fuel(chain_points, 5);
}

/// Eating ghosts in one collision step or spread over two earns the same
/// points: the chain carries over from one step to the next.
pub proof fn law_chain_points_split(v: PointValues, c: int, a: nat, b: nat)
    ensures
        chain_points(v, c, a + b) == chain_points(v, c, a) + chain_points(v, c + a, b),
    decreases b,
{
    if b > 0 {
        law_chain_points_split(v, c, a, (b - 1) as nat);
        assert((a + b - 1) as nat == a + (b - 1) as nat);
    }
}

/// The release step moves a leaving ghost towards the exit: right when it
/// stands left of it, left when right of it, up when level with it but
/// below; it is released only once level with the exit and at its height.
/// The cage timer runs only while no ghost is leaving, and for a caged one.
pub proof fn law_release_moves_towards_exit(gs: Seq<ReleaseView>, a: ReleaseAction, k: usize)
    requires
        is_release_action(gs, a),
    ensures
        a == ReleaseAction::StepRight(k) ==> k < gs.len() && gs[k as int].state == ReleaseState::Releasing
            && gs[k as int].across == Side::LeftOf,
        a == ReleaseAction::StepLeft(k) ==> k < gs.len() && gs[k as int].state == ReleaseState::Releasing
            && gs[k as int].across == Side::RightOf,
        a == ReleaseAction::StepUp(k) ==> k < gs.len() && gs[k as int].state == ReleaseState::Releasing
            && gs[k as int].across == Side::Level && gs[k as int].below_exit,
        a == ReleaseAction::Release(k) ==> k < gs.len() && gs[k as int].state == ReleaseState::Releasing
            && gs[k as int].across == Side::Level && !gs[k as int].below_exit,
        a == ReleaseAction::TickCageTimer(k) ==> k < gs.len() && gs[k as int].state == ReleaseState::Caged
            && forall|j: int| 0 <= j < gs.len() ==> #[trigger] gs[j].state != ReleaseState::Releasing,
        a == ReleaseAction::Idle ==> forall|j: int|
            0 <= j < gs.len() ==> #[trigger] gs[j].state != ReleaseState::Releasing && gs[j].state
                != ReleaseState::Caged,
{
    if some_in(gs, ReleaseState::Releasing) {
        let m = choose|m: usize| first_in(gs, ReleaseState::Releasing, m as int) && a == leaving_action(gs[m as int], m);
        assert(action_ghost(a) == Some(m));
    } else if some_in(gs, ReleaseState::Caged) {
        let m = choose|m: usize| first_in(gs, ReleaseState::Caged, m as int) && a == ReleaseAction::TickCageTimer(m);
    }
}

} // verus!
