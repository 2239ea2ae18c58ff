//! How replays go on from one another.

use crate::commands::FractureCommand;
use crate::digest::state_digest;
use crate::family::FamilyModel;
use crate::fracture::fractured;
use crate::order::key_of;
use crate::replay::{replayed, scheduled_order, tick_commands, ticked, ticked_upto, ReplayCommand, TraceModel};
use crate::split::split_all;
use crate::stress_laws::lemma_sorted_filter;
use vstd::prelude::*;

verus! {

/// The commands that are scheduled for a tick, in their order.
pub open spec fn due(commands: Seq<ReplayCommand>, tick: u64) -> Seq<FractureCommand> {
    scheduled_order(commands).filter(|c: ReplayCommand| c.tick == tick).map_values(
        |c: ReplayCommand| c.command,
    )
}

proof fn lemma_due_upto(s: Seq<ReplayCommand>, tick: u64, n: int)
    requires
        0 <= n <= s.len(),
    ensures
        tick_commands(s, tick, n) == s.take(n).filter(
            |c: ReplayCommand| c.tick == tick,
        ).map_values(|c: ReplayCommand| c.command),
    decreases n,
{
    reveal(Seq::filter);
    let p = |c: ReplayCommand| c.tick == tick;
    let m = |c: ReplayCommand| c.command;
    if n > 0 {
        lemma_due_upto(s, tick, n - 1);
        assert(s.take(n).drop_last() =~= s.take(n - 1));
        assert(s.take(n).last() == s[n - 1]);
        if p(s[n - 1]) {
            assert(s.take(n - 1).filter(p).push(s[n - 1]).map_values(m) =~= s.take(n - 1).filter(
                p,
            ).map_values(m).push(s[n - 1].command));
        }
    } else {
        assert(s.take(0).filter(p).map_values(m) =~= Seq::<FractureCommand>::empty());
    }
}

proof fn lemma_due(commands: Seq<ReplayCommand>, tick: u64)
    ensures
        tick_commands(scheduled_order(commands), tick, scheduled_order(commands).len() as int)
            == due(commands, tick),
{
    let s = scheduled_order(commands);
    lemma_due_upto(s, tick, s.len() as int);
    assert(s.take(s.len() as int) =~= s);
}

/// A replay of one tick deals the blows that are due and then has what came apart split. Its trace
/// tells of just that, with the digest of the body it leaves behind.
pub proof fn lemma_one_tick(f: FamilyModel, commands: Seq<ReplayCommand>, tick: u64)
    requires
        tick < u64::MAX,
    ensures
        ({
            let (g, blows) = fractured(f, due(commands, tick));
            let (h, splits) = split_all(g);
            let (left, traces) = replayed(f, commands, tick, (tick + 1) as u64);
            &&& left == h
            &&& traces.len() == 1
            &&& traces[0].tick == tick
            &&& traces[0].fracture_events == blows
            &&& traces[0].split_events == splits
            &&& traces[0].family_digest == state_digest(h)
        }),
{
    let s = scheduled_order(commands);
    let end = (tick + 1) as u64;
    lemma_due(commands, tick);
    assert(end - tick == 1);
    assert((tick + 1 - 1) as u64 == tick);
    reveal(ticked);
    let (g, trace) = ticked(f, s, tick);
    assert(ticked_upto(f, s, tick, 0) == (f, Seq::<TraceModel>::empty()));
    assert(ticked_upto(f, s, tick, 1) == (g, Seq::<TraceModel>::empty().push(trace)));
}

proof fn lemma_ticks_after(f: FamilyModel, s: Seq<ReplayCommand>, start: u64, a: int, b: int)
    requires
        0 <= a,
        0 <= b,
        start + a + b <= u64::MAX,
    ensures
        ({
            let (g, first) = ticked_upto(f, s, start, a);
            let (h, second) = ticked_upto(g, s, (start + a) as u64, b);
            ticked_upto(f, s, start, a + b) == (h, first + second)
        }),
    decreases b,
{
    let (g, first) = ticked_upto(f, s, start, a);
    if b == 0 {
        assert(first + Seq::<TraceModel>::empty() =~= first);
    } else {
        lemma_ticks_after(f, s, start, a, b - 1);
        let (h, second) = ticked_upto(g, s, (start + a) as u64, b - 1);
        let trace = ticked(h, s, (start + a + b - 1) as u64).1;
        assert((first + second).push(trace) =~= first + second.push(trace));
    }
}

/// A replay can be broken off at any tick and gone on with from there.
pub proof fn lemma_replay_goes_on(
    f: FamilyModel,
    commands: Seq<ReplayCommand>,
    start: u64,
    middle: u64,
    end: u64,
)
    requires
        start <= middle <= end,
    ensures
        ({
            let (g, first) = replayed(f, commands, start, middle);
            let (h, second) = replayed(g, commands, middle, end);
            replayed(f, commands, start, end) == (h, first + second)
        }),
        replayed(f, commands, start, start) == (f, Seq::<TraceModel>::empty()),
{
    lemma_ticks_after(f, scheduled_order(commands), start, middle - start, end - middle);
}

proof fn lemma_same_ticks(
    f: FamilyModel,
    commands: Seq<ReplayCommand>,
    others: Seq<ReplayCommand>,
    start: u64,
    n: int,
)
    requires
        start + n <= u64::MAX,
        forall|tick: u64| start <= tick < start + n ==> #[trigger] due(commands, tick) == due(
            others,
            tick,
        ),
    ensures
        ticked_upto(f, scheduled_order(commands), start, n) == ticked_upto(
            f,
            scheduled_order(others),
            start,
            n,
        ),
    decreases n,
{
    if n > 0 {
        let tick = (start + n - 1) as u64;
        lemma_same_ticks(f, commands, others, start, n - 1);
        lemma_due(commands, tick);
        lemma_due(others, tick);
        assert(due(commands, tick) == due(others, tick));
        let (g, traces) = ticked_upto(f, scheduled_order(commands), start, n - 1);
        assert(ticked(g, scheduled_order(commands), tick) == ticked(
            g,
            scheduled_order(others),
            tick,
        )) by {
            reveal(ticked);
        }
    }
}

/// Commands for ticks that are not replayed make no difference.
pub proof fn lemma_other_ticks_do_not_matter(
    f: FamilyModel,
    commands: Seq<ReplayCommand>,
    start: u64,
    end: u64,
)
    requires
        start <= end,
    ensures
        replayed(f, commands, start, end) == replayed(
            f,
            commands.filter(|c: ReplayCommand| start <= c.tick < end),
            start,
            end,
        ),
{
    let inside = |c: ReplayCommand| start <= c.tick < end;
    let some = commands.filter(inside);
    let key = key_of::<ReplayCommand>();
    lemma_sorted_filter(commands, key, inside);
    let s = scheduled_order(commands);
    assert forall|tick: u64| start <= tick < start + (end - start) implies #[trigger] due(
        commands,
        tick,
    ) == due(some, tick) by {
        lemma_filter_twice(s, inside, |c: ReplayCommand| c.tick == tick);
    }
    lemma_same_ticks(f, commands, some, start, end - start);
}

proof fn lemma_filter_twice(
    s: Seq<ReplayCommand>,
    p: spec_fn(ReplayCommand) -> bool,
    q: spec_fn(ReplayCommand) -> bool,
)
    requires
        forall|c: ReplayCommand| #[trigger] q(c) ==> p(c),
    ensures
        s.filter(p).filter(q) == s.filter(q),
    decreases s.len(),
{
    reveal(Seq::filter);
    if s.len() > 0 {
        let t = s.drop_last();
        lemma_filter_twice(t, p, q);
        if p(s.last()) {
            let u = t.filter(p).push(s.last());
            assert(u.drop_last() =~= t.filter(p));
            assert(u.last() == s.last());
        }
    }
}

} // verus!
