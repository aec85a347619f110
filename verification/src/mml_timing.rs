use vstd::prelude::*;

use crate::mml_parser::{commands_view, MmlCommand, MmlCommandView};

verus! {

/// Clocks per tick before any tempo command: 120 beats per minute.
pub const DEFAULT_CLOCKS_PER_TICK: u32 = 18643;

/// Where playback stands: the next command, the open repeats (the index after their
/// `[` and how often they were played again), the tempo and the clocks so far.
pub struct PlayState {
    pub ci: int,
    pub stack: Seq<(u32, u32)>,
    pub cpt: int,
    pub total: int,
}

/// The result of playing one command.
pub enum PlayStep {
    Next(PlayState),
    /// A repeat without end was reached.
    Endless,
    /// The clock count no longer fits 32 bits.
    Overflow,
}

/// Plays the command at `st.ci`.
pub open spec fn play_step(cmds: Seq<MmlCommandView>, st: PlayState) -> PlayStep {
    let next = PlayState { ci: st.ci + 1, ..st };
    match cmds[st.ci] {
        MmlCommandView::Tempo { clocks_per_tick } => PlayStep::Next(PlayState { cpt: clocks_per_tick as int, ..next }),
        MmlCommandView::Note { duration_ticks, .. } | MmlCommandView::Rest { duration_ticks } => {
            let clocks = st.cpt * duration_ticks;
            if clocks > u32::MAX || st.total + clocks > u32::MAX {
                PlayStep::Overflow
            } else {
                PlayStep::Next(PlayState { total: st.total + clocks, ..next })
            }
        },
        MmlCommandView::RepeatStart => PlayStep::Next(PlayState { stack: st.stack.push(((st.ci + 1) as u32, 0u32)), ..next }),
        MmlCommandView::RepeatEnd { play_count } => {
            if play_count == 0 {
                PlayStep::Endless
            } else if st.stack.len() == 0 {
                PlayStep::Next(next)
            } else {
                let (index, count) = st.stack.last();
                if count + 1 < play_count {
                    PlayStep::Next(PlayState { ci: index as int, stack: st.stack.drop_last().push((index, (count + 1) as u32)), ..next })
                } else {
                    PlayStep::Next(PlayState { stack: st.stack.drop_last(), ..next })
                }
            }
        },
        _ => PlayStep::Next(next),
    }
}

/// The outcome of playing a command list.
pub enum PlayOutcome {
    /// All commands played, taking this many clocks.
    Clocks(int),
    Endless,
    Overflow,
    /// More steps would be needed than were allowed.
    Unfinished,
}

/// Plays from `st` for at most `fuel` commands.
pub open spec fn play_run(cmds: Seq<MmlCommandView>, st: PlayState, fuel: nat) -> PlayOutcome
    decreases fuel,
{
    if st.ci < 0 || st.ci >= cmds.len() {
        PlayOutcome::Clocks(st.total)
    } else if fuel == 0 {
        PlayOutcome::Unfinished
    } else {
        match play_step(cmds, st) {
            PlayStep::Next(next) => play_run(cmds, next, (fuel - 1) as nat),
            PlayStep::Endless => PlayOutcome::Endless,
            PlayStep::Overflow => PlayOutcome::Overflow,
        }
    }
}

/// The largest play count of a repeat end among the first `k` commands, and at least 1.
pub open spec fn max_play_count(cmds: Seq<MmlCommandView>, k: int) -> int
    decreases k,
{
    if k <= 0 || k > cmds.len() {
        1
    } else {
        let rest = max_play_count(cmds, k - 1);
        match cmds[k - 1] {
            MmlCommandView::RepeatEnd { play_count } => if play_count > rest { play_count as int } else { rest },
            _ => rest,
        }
    }
}

/// `base` to the power `n`.
pub open spec fn power(base: int, n: nat) -> int
    decreases n,
{
    if n == 0 {
        1
    } else {
        base * power(base, (n - 1) as nat)
    }
}

/// A bound on the steps that playing `cmds` can take: playback ends within it.
pub open spec fn play_fuel(cmds: Seq<MmlCommandView>) -> nat {
    power(max_play_count(cmds, cmds.len() as int) + 2, (cmds.len() + 1) as nat) as nat
}

/// Playing a command list from its start: the clocks it takes, or how it fails.
pub open spec fn play_commands(cmds: Seq<MmlCommandView>) -> PlayOutcome {
    play_run(cmds, PlayState { ci: 0, stack: Seq::empty(), cpt: DEFAULT_CLOCKS_PER_TICK as int, total: 0 }, play_fuel(cmds))
}

/// The play count recorded for the repeat that starts at `q`, if it is open.
pub open spec fn entry_count(stack: Seq<(u32, u32)>, q: int) -> Option<int>
    decreases stack.len(),
{
    if stack.len() == 0 {
        None
    } else if stack.last().0 == q {
        Some(stack.last().1 as int)
    } else {
        entry_count(stack.drop_last(), q)
    }
}

/// How much is left to do at position `q`, for the termination measure: nothing for a
/// passed position, `m - count` for an open repeat, `m + 1` for a position ahead.
pub open spec fn level(stack: Seq<(u32, u32)>, ci: int, q: int, m: int) -> int {
    match entry_count(stack, q) {
        Some(c) => m - c,
        None => if q <= ci { 0 } else { m + 1 },
    }
}

pub open spec fn levels(stack: Seq<(u32, u32)>, ci: int, n: int, m: int) -> Seq<int> {
    Seq::new((n + 1) as nat, |q: int| level(stack, ci, q, m))
}

/// The first `k` digits of `a` read as a number in base `b`.
pub open spec fn digits_value(a: Seq<int>, k: int, b: int) -> int
    decreases k,
{
    if k <= 0 || k > a.len() {
        0
    } else {
        digits_value(a, k - 1, b) * b + a[k - 1]
    }
}

/// The open repeats are in playing order, at or before the next command, each played
/// again fewer than `m` times.
pub open spec fn stack_ok(stack: Seq<(u32, u32)>, ci: int, m: int) -> bool {
    &&& forall|t: int| 0 <= t < stack.len() ==> 0 <= (#[trigger] stack[t]).0 <= ci && stack[t].1 < m
    &&& forall|s: int, t: int| 0 <= s < t < stack.len() ==> (#[trigger] stack[s]).0 < (#[trigger] stack[t]).0
}

proof fn lemma_digits_bound(a: Seq<int>, k: int, b: int)
    requires
        0 <= k <= a.len(),
        b >= 1,
        forall|q: int| 0 <= q < a.len() ==> 0 <= #[trigger] a[q] < b,
    ensures
        0 <= digits_value(a, k, b) < power(b, k as nat),
    decreases k,
{
    if k > 0 {
        lemma_digits_bound(a, k - 1, b);
        let v = digits_value(a, k - 1, b);
        let p = power(b, (k - 1) as nat);
        assert(v * b + a[k - 1] < p * b) by (nonlinear_arith)
            requires 0 <= v < p, 0 <= a[k - 1] < b, b >= 1;
        assert(0 <= v * b) by (nonlinear_arith)
            requires 0 <= v, b >= 1;
        assert(power(b, k as nat) == b * p);
        assert(p * b == b * p) by (nonlinear_arith);
    }
}

/// A number whose digits first differ at `p`, with a smaller digit there, is smaller.
proof fn lemma_digits_decrease(a: Seq<int>, a2: Seq<int>, p: int, k: int, b: int)
    requires
        a.len() == a2.len(),
        0 <= p < k <= a.len(),
        b >= 1,
        forall|q: int| 0 <= q < p ==> a[q] == a2[q],
        a2[p] < a[p],
        forall|q: int| 0 <= q < a.len() ==> 0 <= #[trigger] a[q] < b,
        forall|q: int| 0 <= q < a2.len() ==> 0 <= #[trigger] a2[q] < b,
    ensures
        digits_value(a2, k, b) < digits_value(a, k, b),
    decreases k,
{
    if k == p + 1 {
        assert forall|j: int| 0 <= j <= p implies digits_value(a, j, b) == digits_value(a2, j, b) by {
            lemma_digits_prefix(a, a2, j, p, b);
        }
        let v = digits_value(a, p, b);
        assert(v * b + a2[p] < v * b + a[p]);
    } else {
        lemma_digits_decrease(a, a2, p, k - 1, b);
        let v = digits_value(a, k - 1, b);
        let v2 = digits_value(a2, k - 1, b);
        assert(v2 * b + a2[k - 1] < v * b + a[k - 1]) by (nonlinear_arith)
            requires v2 < v, 0 <= a2[k - 1] < b, 0 <= a[k - 1], b >= 1;
    }
}

proof fn lemma_digits_prefix(a: Seq<int>, a2: Seq<int>, j: int, p: int, b: int)
    requires
        a.len() == a2.len(),
        0 <= j <= p < a.len(),
        forall|q: int| 0 <= q < p ==> a[q] == a2[q],
    ensures
        digits_value(a, j, b) == digits_value(a2, j, b),
    decreases j,
{
    if j > 0 {
        lemma_digits_prefix(a, a2, j - 1, p, b);
    }
}

proof fn lemma_entry_absent(stack: Seq<(u32, u32)>, q: int)
    requires
        forall|t: int| 0 <= t < stack.len() ==> (#[trigger] stack[t]).0 != q,
    ensures
        entry_count(stack, q) is None,
    decreases stack.len(),
{
    if stack.len() > 0 {
        assert(stack.last() == stack[stack.len() - 1]);
        assert forall|t: int| 0 <= t < stack.drop_last().len() implies (#[trigger] stack.drop_last()[t]).0 != q by {
            assert(stack.drop_last()[t] == stack[t]);
        }
        lemma_entry_absent(stack.drop_last(), q);
    }
}

proof fn lemma_entry_bound(stack: Seq<(u32, u32)>, q: int, ci: int, m: int)
    requires
        stack_ok(stack, ci, m),
    ensures
        entry_count(stack, q) matches Some(c) ==> 0 <= c < m && q <= ci,
    decreases stack.len(),
{
    if stack.len() > 0 {
        assert(stack.last() == stack[stack.len() - 1]);
        assert(stack_ok(stack.drop_last(), ci, m)) by {
            assert forall|t: int| 0 <= t < stack.drop_last().len() implies #[trigger] stack.drop_last()[t] == stack[t] by {}
        }
        lemma_entry_bound(stack.drop_last(), q, ci, m);
    }
}

proof fn lemma_levels_bound(stack: Seq<(u32, u32)>, ci: int, n: int, m: int)
    requires
        stack_ok(stack, ci, m),
        m >= 1,
        n >= 0,
    ensures
        forall|q: int| 0 <= q < levels(stack, ci, n, m).len() ==> 0 <= #[trigger] levels(stack, ci, n, m)[q] < m + 2,
{
    assert forall|q: int| 0 <= q < levels(stack, ci, n, m).len() implies 0 <= #[trigger] levels(stack, ci, n, m)[q] < m + 2 by {
        lemma_entry_bound(stack, q, ci, m);
    }
}

/// The termination measure of a play state.
pub open spec fn measure(st: PlayState, n: int, m: int) -> int {
    digits_value(levels(st.stack, st.ci, n, m), n + 1, m + 2)
}

/// Every repeat end plays at most `max_play_count` times.
proof fn lemma_max_play_count(cmds: Seq<MmlCommandView>, k: int, i: int)
    requires
        0 <= i < k <= cmds.len(),
    ensures
        max_play_count(cmds, k) >= 1,
        cmds[i] matches MmlCommandView::RepeatEnd { play_count } ==> play_count <= max_play_count(cmds, k),
    decreases k,
{
    lemma_max_play_count_pos(cmds, k - 1);
    if i < k - 1 {
        lemma_max_play_count(cmds, k - 1, i);
    }
}

proof fn lemma_max_play_count_pos(cmds: Seq<MmlCommandView>, k: int)
    ensures
        max_play_count(cmds, k) >= 1,
    decreases k,
{
    if k > 0 && k <= cmds.len() {
        lemma_max_play_count_pos(cmds, k - 1);
    }
}

/// Playing a command keeps the repeats in order and lowers the measure.
proof fn lemma_step_measure(cmds: Seq<MmlCommandView>, st: PlayState, next: PlayState, m: int)
    requires
        0 <= st.ci < cmds.len() <= u32::MAX,
        m >= 1,
        stack_ok(st.stack, st.ci, m),
        forall|i: int| 0 <= i < cmds.len() ==> (#[trigger] cmds[i] matches MmlCommandView::RepeatEnd { play_count } ==> play_count <= m),
        play_step(cmds, st) == PlayStep::Next(next),
    ensures
        0 <= next.ci <= cmds.len(),
        stack_ok(next.stack, next.ci, m),
        measure(next, cmds.len() as int, m) < measure(st, cmds.len() as int, m),
{
    let n = cmds.len() as int;
    let ci = st.ci;
    let stack = st.stack;
    let a = levels(stack, ci, n, m);
    lemma_levels_bound(stack, ci, n, m);
    assert forall|t: int| 0 <= t < stack.len() implies (#[trigger] stack[t]).0 != ci + 1 by {}
    lemma_entry_absent(stack, ci + 1);
    let cmd = cmds[ci];
    if let MmlCommandView::RepeatStart = cmd {
        let s2 = stack.push(((ci + 1) as u32, 0u32));
        assert(next.stack == s2 && next.ci == ci + 1);
        assert(stack_ok(s2, ci + 1, m)) by {
            assert forall|t: int| 0 <= t < s2.len() implies 0 <= (#[trigger] s2[t]).0 <= ci + 1 && s2[t].1 < m by {
                if t < stack.len() {
                    assert(s2[t] == stack[t]);
                }
            }
            assert forall|x: int, t: int| 0 <= x < t < s2.len() implies (#[trigger] s2[x]).0 < (#[trigger] s2[t]).0 by {
                assert(s2[x] == stack[x]);
                if t < stack.len() {
                    assert(s2[t] == stack[t]);
                }
            }
        }
        let a2 = levels(s2, ci + 1, n, m);
        lemma_levels_bound(s2, ci + 1, n, m);
        assert forall|q: int| 0 <= q < ci + 1 implies a[q] == a2[q] by {
            assert(s2.drop_last() == stack);
        }
        assert(s2.drop_last() == stack);
        lemma_digits_decrease(a, a2, ci + 1, n + 1, m + 2);
    } else if let MmlCommandView::RepeatEnd { play_count } = cmd {
        if stack.len() == 0 {
            assert(next.stack == stack && next.ci == ci + 1);
            let a2 = levels(stack, ci + 1, n, m);
            assert(stack_ok(stack, ci + 1, m));
            lemma_levels_bound(stack, ci + 1, n, m);
            lemma_digits_decrease(a, a2, ci + 1, n + 1, m + 2);
        } else {
            let (j, c) = stack.last();
            let rest = stack.drop_last();
            assert(stack.last() == stack[stack.len() - 1]);
            assert forall|t: int| 0 <= t < rest.len() implies (#[trigger] rest[t]) == stack[t] && rest[t].0 < j by {
                assert(rest[t] == stack[t]);
            }
            assert forall|t: int| 0 <= t < rest.len() implies (#[trigger] rest[t]).0 != j by {
                assert(rest[t] == stack[t]);
            }
            lemma_entry_absent(rest, j as int);
            lemma_entry_bound(stack, j as int, ci, m);
            assert(play_count <= m);
            if c + 1 < play_count {
                let s2 = rest.push((j, (c + 1) as u32));
                assert(next.stack == s2 && next.ci == j);
                assert(stack_ok(s2, j as int, m)) by {
                    assert forall|t: int| 0 <= t < s2.len() implies 0 <= (#[trigger] s2[t]).0 <= j && s2[t].1 < m by {
                        if t < rest.len() {
                            assert(s2[t] == rest[t]);
                        }
                    }
                    assert forall|x: int, t: int| 0 <= x < t < s2.len() implies (#[trigger] s2[x]).0 < (#[trigger] s2[t]).0 by {
                        assert(s2[x] == rest[x]);
                        if t < rest.len() {
                            assert(s2[t] == rest[t]);
                            assert(rest[x] == stack[x] && rest[t] == stack[t]);
                        }
                    }
                }
                let a2 = levels(s2, j as int, n, m);
                lemma_levels_bound(s2, j as int, n, m);
                assert(s2.drop_last() == rest);
                assert forall|q: int| 0 <= q < j implies a[q] == a2[q] by {
                    lemma_entry_bound(stack, q, ci, m);
                }
                lemma_digits_decrease(a, a2, j as int, n + 1, m + 2);
            } else {
                assert(next.stack == rest && next.ci == ci + 1);
                assert(stack_ok(rest, ci + 1, m)) by {
                    assert forall|x: int, t: int| 0 <= x < t < rest.len() implies (#[trigger] rest[x]).0 < (#[trigger] rest[t]).0 by {
                        assert(rest[x] == stack[x] && rest[t] == stack[t]);
                    }
                }
                let a2 = levels(rest, ci + 1, n, m);
                lemma_levels_bound(rest, ci + 1, n, m);
                assert forall|q: int| 0 <= q < j implies a[q] == a2[q] by {
                    lemma_entry_bound(stack, q, ci, m);
                }
                lemma_digits_decrease(a, a2, j as int, n + 1, m + 2);
            }
        }
    } else {
        assert(next.stack == stack && next.ci == ci + 1);
        let a2 = levels(stack, ci + 1, n, m);
        assert(stack_ok(stack, ci + 1, m));
        lemma_levels_bound(stack, ci + 1, n, m);
        lemma_digits_decrease(a, a2, ci + 1, n + 1, m + 2);
    }
}

/// The largest play count of a repeat end, and at least 1.
fn max_count(commands: &Vec<MmlCommand>) -> (r: u32)
    ensures
        r == max_play_count(commands_view(commands@), commands@.len() as int),
{
    let ghost cmds = commands_view(commands@);
    let mut r: u32 = 1;
    let mut k: usize = 0;
    while k < commands.len()
        invariant
            k <= commands@.len(),
            cmds == commands_view(commands@),
            r == max_play_count(cmds, k as int),
        decreases commands@.len() - k,
    {
        assert(cmds[k as int] == commands@[k as int]@);
        match &commands[k] {
            MmlCommand::RepeatEnd { play_count } => {
                if *play_count > r {
                    r = *play_count;
                }
            },
            _ => {},
        }
        k = k + 1;
    }
    r
}

/// The clocks it takes to play `commands`, repeats included, or `None` when a repeat
/// has no end (a play count of 0 is reached).
pub fn calc_commands_clocks(commands: &Vec<MmlCommand>) -> (r: Option<u32>)
    requires
        commands@.len() <= u32::MAX,
        !(play_commands(commands_view(commands@)) is Overflow),
    ensures
        match play_commands(commands_view(commands@)) {
            PlayOutcome::Clocks(t) => r == Some(t as u32),
            PlayOutcome::Endless => r is None,
            _ => false,
        },
{
    match try_calc_commands_clocks(commands) {
        Ok(r) => r,
        Err(_) => vstd::pervasive::unreached(),
    }
}

/// The clock count of a command list went past 32 bits.
#[derive(Debug)]
pub struct ClockOverflow;

/// `calc_commands_clocks`, or `Err` where the count of clocks goes past 32 bits.
pub fn try_calc_commands_clocks(commands: &Vec<MmlCommand>) -> (r: Result<Option<u32>, ClockOverflow>)
    requires
        commands@.len() <= u32::MAX,
    ensures
        match play_commands(commands_view(commands@)) {
            PlayOutcome::Clocks(t) => r matches Ok(Some(x)) && x == t,
            PlayOutcome::Endless => r matches Ok(None),
            PlayOutcome::Overflow => r is Err,
            PlayOutcome::Unfinished => false,
        },
{
    let ghost cmds = commands_view(commands@);
    let ghost n = cmds.len() as int;
    let m = max_count(commands);
    proof {
        lemma_max_play_count_pos(cmds, n);
        assert forall|i: int| 0 <= i < cmds.len() implies (#[trigger] cmds[i] matches MmlCommandView::RepeatEnd { play_count } ==> play_count <= m) by {
            lemma_max_play_count(cmds, n, i);
        }
    }
    let len = commands.len() as u32;
    let mut total: u32 = 0;
    let mut ci: u32 = 0;
    let mut stack: Vec<(u32, u32)> = Vec::new();
    let mut cpt: u32 = DEFAULT_CLOCKS_PER_TICK;
    let ghost mut fuel: nat = play_fuel(cmds);
    proof {
        let st = PlayState { ci: 0, stack: stack@, cpt: cpt as int, total: 0 };
        lemma_levels_bound(stack@, 0, n, m as int);
        lemma_digits_bound(levels(stack@, 0, n, m as int), n + 1, m + 2);
        assert(stack@.len() == 0);
    }
    while ci < len
        invariant
            len == commands@.len() == cmds.len() == n,
            n <= u32::MAX,
            cmds == commands_view(commands@),
            m >= 1,
            forall|i: int| 0 <= i < cmds.len() ==> (#[trigger] cmds[i] matches MmlCommandView::RepeatEnd { play_count } ==> play_count <= m),
            ci <= n,
            stack_ok(stack@, ci as int, m as int),
            play_commands(cmds) == play_run(cmds, PlayState { ci: ci as int, stack: stack@, cpt: cpt as int, total: total as int }, fuel),
            fuel > measure(PlayState { ci: ci as int, stack: stack@, cpt: cpt as int, total: total as int }, n, m as int),
            measure(PlayState { ci: ci as int, stack: stack@, cpt: cpt as int, total: total as int }, n, m as int) >= 0,
        decreases fuel,
    {
        let ghost st = PlayState { ci: ci as int, stack: stack@, cpt: cpt as int, total: total as int };
        assert(cmds[ci as int] == commands@[ci as int]@);
        let cmd = &commands[ci as usize];
        ci = ci + 1;
        match cmd {
            MmlCommand::Tempo { clocks_per_tick } => {
                cpt = *clocks_per_tick;
            },
            MmlCommand::Note { duration_ticks, .. } => {
                let d = *duration_ticks;
                assert(cpt as u64 * d as u64 <= u32::MAX as u64 * u32::MAX as u64) by (nonlinear_arith)
                    requires cpt <= u32::MAX, d <= u32::MAX;
                let clocks = cpt as u64 * d as u64;
                if clocks > u32::MAX as u64 || total as u64 + clocks > u32::MAX as u64 {
                    assert(play_step(cmds, st) == PlayStep::Overflow);
                    assert(fuel > 0);
                    assert(play_run(cmds, st, fuel) == PlayOutcome::Overflow);
                    return Err(ClockOverflow);
                }
                total = total + clocks as u32;
            },
            MmlCommand::Rest { duration_ticks } => {
                let d = *duration_ticks;
                assert(cpt as u64 * d as u64 <= u32::MAX as u64 * u32::MAX as u64) by (nonlinear_arith)
                    requires cpt <= u32::MAX, d <= u32::MAX;
                let clocks = cpt as u64 * d as u64;
                if clocks > u32::MAX as u64 || total as u64 + clocks > u32::MAX as u64 {
                    assert(play_step(cmds, st) == PlayStep::Overflow);
                    assert(fuel > 0);
                    assert(play_run(cmds, st, fuel) == PlayOutcome::Overflow);
                    return Err(ClockOverflow);
                }
                total = total + clocks as u32;
            },
            MmlCommand::RepeatStart => {
                stack.push((ci, 0));
            },
            MmlCommand::RepeatEnd { play_count } => {
                if *play_count == 0 {
                    return Ok(None);
                }
                match stack.pop() {
                    Some((index, count)) => {
                        if count + 1 < *play_count {
                            stack.push((index, count + 1));
                            ci = index;
                        }
                    },
                    None => {},
                }
            },
            _ => {},
        }
        proof {
            let next = PlayState { ci: ci as int, stack: stack@, cpt: cpt as int, total: total as int };
            assert(play_step(cmds, st) == PlayStep::Next(next));
            lemma_step_measure(cmds, st, next, m as int);
            lemma_levels_bound(stack@, ci as int, n, m as int);
            lemma_digits_bound(levels(stack@, ci as int, n, m as int), n + 1, m + 2);
            fuel = (fuel - 1) as nat;
        }
    }
    Ok(Some(total))
}

/// Without a repeat end of play count 0, playback never runs endlessly.
pub proof fn lemma_no_endless_without_zero_count(cmds: Seq<MmlCommandView>, st: PlayState, fuel: nat)
    requires
        forall|i: int| 0 <= i < cmds.len() ==> !(#[trigger] cmds[i] matches MmlCommandView::RepeatEnd { play_count } && play_count == 0),
    ensures
        !(play_run(cmds, st, fuel) is Endless),
    decreases fuel,
{
    if 0 <= st.ci < cmds.len() && fuel > 0 {
        assert(!(cmds[st.ci] matches MmlCommandView::RepeatEnd { play_count } && play_count == 0));
        if let PlayStep::Next(next) = play_step(cmds, st) {
            lemma_no_endless_without_zero_count(cmds, next, (fuel - 1) as nat);
        }
    }
}

/// Playback from a position at or before a repeat end of play count 0 ends there as
/// endless, unless the clock count overflows first.
proof fn lemma_zero_count_reached(cmds: Seq<MmlCommandView>, st: PlayState, fuel: nat, z: int, m: int)
    requires
        0 <= st.ci <= z < cmds.len() <= u32::MAX,
        cmds[z] matches MmlCommandView::RepeatEnd { play_count } && play_count == 0,
        m >= 1,
        stack_ok(st.stack, st.ci, m),
        forall|i: int| 0 <= i < cmds.len() ==> (#[trigger] cmds[i] matches MmlCommandView::RepeatEnd { play_count } ==> play_count <= m),
        fuel > measure(st, cmds.len() as int, m),
        measure(st, cmds.len() as int, m) >= 0,
    ensures
        play_run(cmds, st, fuel) is Endless || play_run(cmds, st, fuel) is Overflow,
    decreases fuel,
{
    let n = cmds.len() as int;
    if st.ci < z {
        if let PlayStep::Next(next) = play_step(cmds, st) {
            lemma_step_measure(cmds, st, next, m);
            assert(next.ci <= st.ci + 1) by {
                if st.stack.len() > 0 {
                    assert(st.stack.last() == st.stack[st.stack.len() - 1]);
                }
            }
            lemma_levels_bound(next.stack, next.ci, n, m);
            lemma_digits_bound(levels(next.stack, next.ci, n, m), n + 1, m + 2);
            lemma_zero_count_reached(cmds, next, (fuel - 1) as nat, z, m);
        }
    }
}

/// A command list whose clock count fits in 32 bits plays endlessly exactly when one of
/// its repeat ends has play count 0.
pub proof fn lemma_endless_iff_zero_count(cmds: Seq<MmlCommandView>)
    requires
        cmds.len() <= u32::MAX,
        !(play_commands(cmds) is Overflow),
    ensures
        play_commands(cmds) is Endless <==> exists|z: int| 0 <= z < cmds.len()
            && (#[trigger] cmds[z] matches MmlCommandView::RepeatEnd { play_count } && play_count == 0),
{
    let n = cmds.len() as int;
    let st0 = PlayState { ci: 0, stack: Seq::empty(), cpt: DEFAULT_CLOCKS_PER_TICK as int, total: 0 };
    if exists|z: int| 0 <= z < cmds.len() && (#[trigger] cmds[z] matches MmlCommandView::RepeatEnd { play_count } && play_count == 0) {
        let z = choose|z: int| 0 <= z < cmds.len() && (#[trigger] cmds[z] matches MmlCommandView::RepeatEnd { play_count } && play_count == 0);
        let m = max_play_count(cmds, n);
        lemma_max_play_count_pos(cmds, n);
        assert forall|i: int| 0 <= i < cmds.len() implies (#[trigger] cmds[i] matches MmlCommandView::RepeatEnd { play_count } ==> play_count <= m) by {
            lemma_max_play_count(cmds, n, i);
        }
        lemma_levels_bound(st0.stack, 0, n, m);
        lemma_digits_bound(levels(st0.stack, 0, n, m), n + 1, m + 2);
        lemma_zero_count_reached(cmds, st0, play_fuel(cmds), z, m);
    } else {
        lemma_no_endless_without_zero_count(cmds, st0, play_fuel(cmds));
    }
}

} // verus!
