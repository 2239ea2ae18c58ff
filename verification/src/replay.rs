//! Running scheduled commands tick by tick.

use crate::commands::{ordered_commands, target_kind, target_number, FractureCommand};
use crate::digest::state_digest;
use crate::family::{FamilyModel, FxFamily};
use crate::fracture::{
    apply_fracture_commands, event_ids_suffice, fractured, lemma_events_grow, lemma_struck_upto_wf,
    FractureEvent,
};
use crate::idmap::lemma_lookup_at;
use crate::order::{
    in_order, key_le, key_of, lemma_sorted_in_order, lemma_sorted_len,
    lemma_sorted_order_independent, lemma_sorted_permutation, list_of, pair, paired, sort_stable,
    sorted_by, Keyed, SortKey,
};
use crate::split::{
    has_room, lemma_room, lemma_room_suffices, lemma_split_upto_wf, split_all, split_dirty_actors,
    split_fits, split_models, SplitEvent, SplitModel,
};
use vstd::prelude::*;

verus! {

/// A command with the time at which it is to be carried out.
#[derive(Clone, Copy, Debug, PartialEq, Eq, Structural)]
pub struct ReplayCommand {
    pub tick: u64,
    pub stable_order: u64,
    pub command: FractureCommand,
}

/// What happened in a tick.
#[derive(Debug, PartialEq)]
pub struct ReplayTickTrace {
    pub tick: u64,
    pub family_digest: u64,
    pub fracture_events: Vec<FractureEvent>,
    pub split_events: Vec<SplitEvent>,
}

pub ghost struct TraceModel {
    pub tick: u64,
    pub family_digest: u64,
    pub fracture_events: Seq<FractureEvent>,
    pub split_events: Seq<SplitModel>,
}

impl View for ReplayTickTrace {
    type V = TraceModel;

    open spec fn view(&self) -> TraceModel {
        TraceModel {
            tick: self.tick,
            family_digest: self.family_digest,
            fracture_events: self.fracture_events@,
            split_events: split_models(self.split_events@),
        }
    }
}

pub open spec fn trace_models(s: Seq<ReplayTickTrace>) -> Seq<TraceModel> {
    s.map_values(|t: ReplayTickTrace| t@)
}

#[derive(Clone, Copy, Debug, PartialEq, Eq)]
#[allow(inconsistent_fields)]
pub enum ReplayError {
    /// Two commands with the same place in the order differ in what they do.
    AmbiguousDuplicateKey { tick: u64, stable_order: u64 },
}

/// Commands are ordered by tick, stable order, order key and target.
impl Keyed for ReplayCommand {
    open spec fn sort_key(&self) -> SortKey {
        SortKey {
            a: self.tick,
            b: self.stable_order,
            c: self.command.order_key.tick,
            d: paired(
                self.command.order_key.source_priority as u32,
                self.command.order_key.family_id.0,
            ),
            e: paired(
                self.command.order_key.actor_id.0,
                self.command.order_key.command_id.0,
            ),
            f: paired(target_kind(self.command.target), target_number(self.command.target)),
        }
    }

    fn key(&self) -> (k: SortKey) {
        SortKey {
            a: self.tick,
            b: self.stable_order,
            c: self.command.order_key.tick,
            d: pair(
                self.command.order_key.source_priority as u32,
                self.command.order_key.family_id.0,
            ),
            e: pair(
                self.command.order_key.actor_id.0,
                self.command.order_key.command_id.0,
            ),
            f: pair(self.command.target.kind(), self.command.target.number()),
        }
    }
}

/// The scheduled commands in their order.
pub open spec fn scheduled_order(commands: Seq<ReplayCommand>) -> Seq<ReplayCommand> {
    sorted_by(commands, key_of::<ReplayCommand>())
}

/// The commands do the same to the same actor.
pub open spec fn same_payload(a: ReplayCommand, b: ReplayCommand) -> bool {
    a.command.actor == b.command.actor && a.command.health_loss == b.command.health_loss
        && a.command.effective_length_loss == b.command.effective_length_loss && a.command.source
        == b.command.source
}

/// The commands have the same place in the order and do not do the same.
pub open spec fn conflicting(a: ReplayCommand, b: ReplayCommand) -> bool {
    a.sort_key() == b.sort_key() && !same_payload(a, b)
}

/// The first conflict between neighbours from `i` on.
pub open spec fn first_conflict(s: Seq<ReplayCommand>, i: int) -> Option<ReplayError>
    decreases s.len() - i,
{
    if i < 0 || i + 1 >= s.len() {
        None
    } else if conflicting(s[i], s[i + 1]) {
        Some(
            ReplayError::AmbiguousDuplicateKey {
                tick: s[i].tick,
                stable_order: s[i].stable_order,
            },
        )
    } else {
        first_conflict(s, i + 1)
    }
}

pub open spec fn replay_error(commands: Seq<ReplayCommand>) -> Option<ReplayError> {
    first_conflict(scheduled_order(commands), 0)
}

proof fn lemma_no_conflict(s: Seq<ReplayCommand>, i: int, a: int, b: int)
    requires
        in_order(s, key_of::<ReplayCommand>()),
        first_conflict(s, i) is None,
        0 <= i <= a <= b < s.len(),
        s[a].sort_key() == s[b].sort_key(),
    ensures
        same_payload(s[a], s[b]),
    decreases s.len() - i, b - a,
{
    if a < b {
        if i < a {
            lemma_no_conflict(s, i + 1, a, b);
        } else {
            let key = key_of::<ReplayCommand>();
            assert(key_le(key(s[a]), key(s[a + 1])));
            assert(key_le(key(s[a + 1]), key(s[b])));
            assert(s[a].sort_key() == s[a + 1].sort_key());
            lemma_no_conflict(s, i + 1, a + 1, b);
        }
    }
}

proof fn lemma_conflict_found(s: Seq<ReplayCommand>, i: int)
    requires
        first_conflict(s, i) is Some,
        0 <= i,
    ensures
        exists|a: int| i <= a && a + 1 < s.len() && #[trigger] conflicting(s[a], s[a + 1]),
    decreases s.len() - i,
{
    if conflicting(s[i], s[i + 1]) {
        assert(conflicting(s[i], s[i + 1]));
    } else {
        lemma_conflict_found(s, i + 1);
    }
}

/// A schedule is refused just when two of its commands conflict.
pub proof fn lemma_refused_iff_conflict(commands: Seq<ReplayCommand>)
    ensures
        replay_error(commands) is Some <==> exists|x: ReplayCommand, y: ReplayCommand|
            commands.contains(x) && commands.contains(y) && #[trigger] conflicting(x, y),
{
    let s = scheduled_order(commands);
    let key = key_of::<ReplayCommand>();
    lemma_sorted_in_order(commands, key);
    lemma_sorted_permutation(commands, key);
    commands.to_multiset_ensures();
    s.to_multiset_ensures();
    assert forall|x: ReplayCommand| #[trigger] s.contains(x) <==> commands.contains(x) by {
        assert(s.contains(x) <==> s.to_multiset().count(x) > 0);
        assert(commands.contains(x) <==> commands.to_multiset().count(x) > 0);
    }
    if replay_error(commands) is Some {
        lemma_conflict_found(s, 0);
        let a = choose|a: int| 0 <= a && a + 1 < s.len() && #[trigger] conflicting(s[a], s[a + 1]);
        assert(s.contains(s[a]) && s.contains(s[a + 1]));
    }
    if exists|x: ReplayCommand, y: ReplayCommand|
        commands.contains(x) && commands.contains(y) && #[trigger] conflicting(x, y) {
        let (x, y) = choose|x: ReplayCommand, y: ReplayCommand|
            commands.contains(x) && commands.contains(y) && #[trigger] conflicting(x, y);
        assert(s.contains(x) && s.contains(y));
        let a = choose|a: int| 0 <= a < s.len() && s[a] == x;
        let b = choose|b: int| 0 <= b < s.len() && s[b] == y;
        if replay_error(commands) is None {
            if a <= b {
                lemma_no_conflict(s, 0, a, b);
            } else {
                lemma_no_conflict(s, 0, b, a);
            }
        }
    }
}

/// Two 32-bit numbers can be told from their pair.
proof fn lemma_paired_injective(a: u32, b: u32, c: u32, d: u32)
    requires
        paired(a, b) == paired(c, d),
    ensures
        a == c && b == d,
{
    assert(a * 0x1_0000_0000 + b <= u64::MAX);
    assert(c * 0x1_0000_0000 + d <= u64::MAX);
}

/// The outcome of a schedule that is not refused does not depend on the order in which its
/// commands are given.
pub proof fn lemma_replay_order_independent(
    f: FamilyModel,
    commands: Seq<ReplayCommand>,
    other: Seq<ReplayCommand>,
    start: u64,
    end: u64,
)
    requires
        commands.to_multiset() == other.to_multiset(),
        replay_error(commands) is None,
    ensures
        replay_error(other) is None,
        replayed(f, commands, start, end) == replayed(f, other, start, end),
{
    let key = key_of::<ReplayCommand>();
    lemma_refused_iff_conflict(commands);
    commands.to_multiset_ensures();
    assert forall|i: int, j: int|
        0 <= i < commands.len() && 0 <= j < commands.len() && key(#[trigger] commands[i]) == key(
            #[trigger] commands[j],
        ) implies commands[i] == commands[j] by {
        let x = commands[i];
        let y = commands[j];
        assert(commands.contains(x) && commands.contains(y));
        assert(!conflicting(x, y));
        assert(x.sort_key() == y.sort_key());
        let p = x.command.order_key;
        let q = y.command.order_key;
        lemma_paired_injective(
            p.source_priority as u32,
            p.family_id.0,
            q.source_priority as u32,
            q.family_id.0,
        );
        lemma_paired_injective(p.actor_id.0, p.command_id.0, q.actor_id.0, q.command_id.0);
        lemma_paired_injective(
            target_kind(x.command.target),
            target_number(x.command.target),
            target_kind(y.command.target),
            target_number(y.command.target),
        );
        assert(x.command.target == y.command.target);
    }
    lemma_sorted_order_independent(commands, other, key);
}

/// The commands of a tick among the first `n`.
pub open spec fn tick_commands(s: Seq<ReplayCommand>, tick: u64, n: int) -> Seq<FractureCommand>
    decreases n,
{
    if n <= 0 {
        Seq::empty()
    } else if s[n - 1].tick == tick {
        tick_commands(s, tick, n - 1).push(s[n - 1].command)
    } else {
        tick_commands(s, tick, n - 1)
    }
}

/// What a tick does: its commands are carried out, and then the marked actors are looked at.
#[verifier::opaque]
pub open spec fn ticked(f: FamilyModel, s: Seq<ReplayCommand>, tick: u64) -> (
    FamilyModel,
    TraceModel,
) {
    let (g, fracture_events) = fractured(f, tick_commands(s, tick, s.len() as int));
    let (h, split_events) = split_all(g);
    (
        h,
        TraceModel { tick, family_digest: state_digest(h), fracture_events, split_events },
    )
}

/// What `n` ticks do, one after the other.
pub open spec fn ticked_upto(f: FamilyModel, s: Seq<ReplayCommand>, start: u64, n: int) -> (
    FamilyModel,
    Seq<TraceModel>,
)
    decreases n,
{
    if n <= 0 {
        (f, Seq::empty())
    } else {
        let (g, traces) = ticked_upto(f, s, start, n - 1);
        let (h, trace) = ticked(g, s, (start + n - 1) as u64);
        (h, traces.push(trace))
    }
}

/// What the ticks from `start` up to `end`, which is not among them, do.
pub open spec fn replayed(f: FamilyModel, commands: Seq<ReplayCommand>, start: u64, end: u64) -> (
    FamilyModel,
    Seq<TraceModel>,
) {
    ticked_upto(f, scheduled_order(commands), start, end - start)
}

/// The number of commands, among the first `n`, from a tick on.
pub open spec fn left_from(s: Seq<ReplayCommand>, tick: int, n: int) -> nat
    decreases n,
{
    if n <= 0 {
        0
    } else {
        left_from(s, tick, n - 1) + if s[n - 1].tick >= tick {
            1nat
        } else {
            0nat
        }
    }
}

proof fn lemma_left_from(s: Seq<ReplayCommand>, tick: u64, n: int)
    requires
        0 <= n <= s.len(),
    ensures
        tick_commands(s, tick, n).len() + left_from(s, tick + 1, n) == left_from(s, tick as int, n),
        left_from(s, tick as int, n) <= n,
    decreases n,
{
    if n > 0 {
        lemma_left_from(s, tick, n - 1);
    }
}

/// There are no more actors than nodes.
pub proof fn lemma_actors_bounded(f: FamilyModel)
    requires
        f.wf(),
    ensures
        f.actors.len() <= f.asset.support_nodes.len(),
{
    if f.actors.len() > 0 {
        let k = f.actors[0].0;
        lemma_lookup_at(f.actors, 0);
        lemma_room(f, k);
    }
}

/// The ids suffice for what a tick does.
pub open spec fn tick_fits(f: FamilyModel, s: Seq<ReplayCommand>, tick: u64) -> bool {
    let commands = tick_commands(s, tick, s.len() as int);
    event_ids_suffice(f, commands) && split_fits(fractured(f, commands).0)
}

/// The ids suffice for each of `n` ticks.
pub open spec fn ticks_fit(f: FamilyModel, s: Seq<ReplayCommand>, start: u64, n: int) -> bool
    decreases n,
{
    n <= 0 || (ticks_fit(f, s, start, n - 1) && tick_fits(
        ticked_upto(f, s, start, n - 1).0,
        s,
        (start + n - 1) as u64,
    ))
}

/// The ids suffice for a replay: none are needed where it is refused. There may be room for all
/// commands and for all that the body can come apart into, or enough for what each tick does.
pub open spec fn replay_fits(f: FamilyModel, commands: Seq<ReplayCommand>, start: u64, end: u64) -> bool {
    ||| replay_error(commands) is Some
    ||| has_room(f, commands.len() as int)
    ||| ticks_fit(f, scheduled_order(commands), start, end - start)
}

/// A tick for which the ids suffice keeps a body well-formed.
pub proof fn lemma_ticked_wf(f: FamilyModel, s: Seq<ReplayCommand>, tick: u64)
    requires
        f.wf(),
        tick_fits(f, s, tick),
    ensures
        ticked(f, s, tick).0.wf(),
        fractured(f, tick_commands(s, tick, s.len() as int)).0.wf(),
{
    reveal(ticked);
    let commands = tick_commands(s, tick, s.len() as int);
    lemma_sorted_len(commands, key_of::<FractureCommand>());
    let ordered = ordered_commands(commands);
    lemma_events_grow(f, ordered, 0, commands.len() as int);
    lemma_struck_upto_wf(f, ordered, commands.len() as int);
    let g = fractured(f, commands).0;
    let n = g.dirty_actors.len() as int;
    if has_room(g, 0) {
        lemma_room_suffices(g, g.dirty_actors, n, 0);
    }
    lemma_split_upto_wf(g, g.dirty_actors, n);
}

/// Where there is room for all commands, the ids suffice for a tick, and there is room for the
/// commands of later ticks.
pub proof fn lemma_room_for_tick(f: FamilyModel, s: Seq<ReplayCommand>, tick: u64)
    requires
        f.wf(),
        has_room(f, left_from(s, tick as int, s.len() as int) as int),
    ensures
        tick_fits(f, s, tick),
        has_room(ticked(f, s, tick).0, left_from(s, tick + 1, s.len() as int) as int),
{
    reveal(ticked);
    let n = s.len() as int;
    let commands = tick_commands(s, tick, n);
    lemma_left_from(s, tick, n);
    lemma_sorted_len(commands, key_of::<FractureCommand>());
    let ordered = ordered_commands(commands);
    lemma_actors_bounded(f);
    lemma_events_grow(f, ordered, 0, commands.len() as int);
    lemma_struck_upto_wf(f, ordered, commands.len() as int);
    let g = fractured(f, commands).0;
    let left = left_from(s, tick + 1, n) as int;
    lemma_room_suffices(g, g.dirty_actors, g.dirty_actors.len() as int, left);
}

/// Where there is room for all commands, the ids suffice for all ticks.
pub proof fn lemma_room_for_ticks(f: FamilyModel, s: Seq<ReplayCommand>, start: u64, n: int)
    requires
        f.wf(),
        0 <= n,
        start + n <= u64::MAX,
        has_room(f, left_from(s, start as int, s.len() as int) as int),
    ensures
        ticks_fit(f, s, start, n),
        ticked_upto(f, s, start, n).0.wf(),
        has_room(
            ticked_upto(f, s, start, n).0,
            left_from(s, start + n, s.len() as int) as int,
        ),
    decreases n,
{
    if n > 0 {
        lemma_room_for_ticks(f, s, start, n - 1);
        let g = ticked_upto(f, s, start, n - 1).0;
        lemma_room_for_tick(g, s, (start + n - 1) as u64);
        lemma_ticked_wf(g, s, (start + n - 1) as u64);
    }
}

proof fn lemma_ticks_fit_before(f: FamilyModel, s: Seq<ReplayCommand>, start: u64, i: int, n: int)
    requires
        i <= n,
        ticks_fit(f, s, start, n),
    ensures
        ticks_fit(f, s, start, i),
    decreases n - i,
{
    if i < n && n > 0 {
        lemma_ticks_fit_before(f, s, start, i, n - 1);
    }
}

/// Looks for conflicts among ordered commands.
fn validate_replay_commands(sorted: &Vec<ReplayCommand>) -> (r: Option<ReplayError>)
    ensures
        r == first_conflict(sorted@, 0),
{
    let ghost s = sorted@;
    let mut i: usize = 0;
    while i < sorted.len() && i + 1 < sorted.len()
        invariant
            i <= sorted.len(),
            s == sorted@,
            first_conflict(s, 0) == first_conflict(s, i as int),
        decreases sorted.len() - i,
    {
        let a = sorted[i];
        let b = sorted[i + 1];
        let same_key = a.key() == b.key();
        let same = a.command.actor == b.command.actor && a.command.health_loss
            == b.command.health_loss && a.command.effective_length_loss
            == b.command.effective_length_loss && a.command.source == b.command.source;
        if same_key && !same {
            return Some(
                ReplayError::AmbiguousDuplicateKey { tick: a.tick, stable_order: a.stable_order },
            );
        }
        i = i + 1;
    }
    None
}

/// The commands of a tick.
fn select_tick(sorted: &Vec<ReplayCommand>, tick: u64) -> (r: Vec<FractureCommand>)
    ensures
        r@ == tick_commands(sorted@, tick, sorted.len() as int),
{
    let mut out: Vec<FractureCommand> = Vec::new();
    let mut i: usize = 0;
    while i < sorted.len()
        invariant
            i <= sorted.len(),
            out@ == tick_commands(sorted@, tick, i as int),
        decreases sorted.len() - i,
    {
        if sorted[i].tick == tick {
            out.push(sorted[i].command);
        }
        i = i + 1;
    }
    out
}

/// Runs one tick.
fn run_tick(family: &mut FxFamily, sorted: &Vec<ReplayCommand>, tick: u64) -> (r: ReplayTickTrace)
    requires
        old(family)@.wf(),
        tick_fits(old(family)@, sorted@, tick),
    ensures
        (final(family)@, r@) == ticked(old(family)@, sorted@, tick),
        final(family)@.wf(),
{
    proof {
        reveal(ticked);
        lemma_ticked_wf(family@, sorted@, tick);
    }
    let commands = select_tick(sorted, tick);
    let fracture_events = apply_fracture_commands(family, &commands);
    let split_events = split_dirty_actors(family);
    ReplayTickTrace {
        tick,
        family_digest: family.deterministic_state_digest(),
        fracture_events,
        split_events,
    }
}

/// Runs scheduled commands tick by tick, or refuses an ambiguous schedule and leaves everything
/// as it is.
pub fn run_replay_ticks(
    family: &mut FxFamily,
    start_tick: u64,
    end_tick: u64,
    scheduled: &[ReplayCommand],
) -> (r: Result<Vec<ReplayTickTrace>, ReplayError>)
    requires
        old(family)@.wf(),
        replay_fits(old(family)@, scheduled@, start_tick, end_tick),
    ensures
        match r {
            Ok(traces) => {
                &&& replay_error(scheduled@) is None
                &&& (final(family)@, trace_models(traces@)) == replayed(
                    old(family)@,
                    scheduled@,
                    start_tick,
                    end_tick,
                )
            },
            Err(e) => replay_error(scheduled@) == Some(e) && final(family)@ == old(family)@,
        },
        final(family)@.wf(),
{
    let ghost f = family@;
    let mut sorted = list_of(scheduled);
    sort_stable(&mut sorted);
    let ghost s = sorted@;
    proof {
        lemma_sorted_len(scheduled@, key_of::<ReplayCommand>());
        lemma_left_from(s, start_tick, s.len() as int);
    }
    if let Some(e) = validate_replay_commands(&sorted) {
        return Err(e);
    }
    proof {
        if start_tick < end_tick && has_room(f, scheduled.len() as int) {
            lemma_room_for_ticks(f, s, start_tick, end_tick - start_tick);
        }
    }
    let mut traces: Vec<ReplayTickTrace> = Vec::new();
    let mut tick: u64 = start_tick;
    assert(trace_models(traces@) =~= Seq::<TraceModel>::empty());
    while tick < end_tick
        invariant
            start_tick <= tick,
            tick <= end_tick || tick == start_tick,
            s == sorted@,
            f.wf(),
            start_tick < end_tick ==> ticks_fit(f, s, start_tick, end_tick - start_tick),
            family@.wf(),
            (family@, trace_models(traces@)) == ticked_upto(f, s, start_tick, tick - start_tick),
        decreases end_tick - tick,
    {
        let ghost before = traces@;
        proof {
            lemma_ticks_fit_before(f, s, start_tick, tick - start_tick + 1, end_tick - start_tick);
        }
        let trace = run_tick(family, &sorted, tick);
        traces.push(trace);
        assert(trace_models(traces@) =~= trace_models(before).push(trace@));
        tick = tick + 1;
    }
    Ok(traces)
}

} // verus!
