//! The six neighborhoods of the descent. Each lists its moves, in generation order, as small
//! edit descriptors; a candidate schedule is built from one move at a time, so memory stays
//! proportional to one schedule plus the move list.

use crate::builder::{Move, ScheduleBuilder};
use vstd::prelude::*;

verus! {

proof fn lemma_push_keeps(s: Seq<Move>, x: Move)
    ensures
        forall|y: Move| s.contains(y) ==> s.push(x).contains(y),
        s.push(x).contains(x),
{
    assert(s.push(x)[s.len() as int] == x);
    assert forall|y: Move| s.contains(y) implies s.push(x).contains(y) by {
        let q = choose|q: int| 0 <= q < s.len() && s[q] == y;
        assert(s.push(x)[q] == y);
    }
}

/// The indices of an edit, in the order in which the neighborhoods list their edits, padded with 0.
pub open spec fn move_key(mv: Move) -> (int, int, int, int) {
    match mv {
        Move::SwapSingle { machine, i, j } => (machine as int, i as int, j as int, 0),
        Move::MoveSingle { machine, i, j } => (machine as int, i as int, j as int, 0),
        Move::SwapTwo { first, second, i, j } => (first as int, second as int, i as int, j as int),
        Move::MoveTwo { first, second, i, j } => (first as int, second as int, i as int, j as int),
        Move::ReplaceWithTardy { machine, i, j } => (machine as int, i as int, j as int, 0),
        Move::AddTardy { machine, i, j } => (machine as int, i as int, j as int, 0),
        Move::Relocate { task, machine, position } => (task as int, machine as int, position as int, 0),
    }
}

/// Lexicographic order on index tuples.
pub open spec fn key_lt(a: (int, int, int, int), b: (int, int, int, int)) -> bool {
    a.0 < b.0 || (a.0 == b.0 && (a.1 < b.1 || (a.1 == b.1 && (a.2 < b.2 || (a.2 == b.2 && a.3 < b.3)))))
}

proof fn lemma_push_sorted(s: Seq<Move>, x: Move)
    requires
        forall|a: int, b: int| 0 <= a < b < s.len() ==> key_lt(move_key(#[trigger] s[a]), move_key(#[trigger] s[b])),
        forall|a: int| 0 <= a < s.len() ==> key_lt(move_key(#[trigger] s[a]), move_key(x)),
    ensures
        forall|a: int, b: int|
            0 <= a < b < s.push(x).len() ==> key_lt(move_key(#[trigger] s.push(x)[a]), move_key(#[trigger] s.push(x)[b])),
        forall|a: int| 0 <= a < s.push(x).len() ==> #[trigger] s.push(x)[a] == x || key_lt(move_key(s.push(x)[a]), move_key(x)),
{
    assert forall|a: int, b: int|
        0 <= a < b < s.push(x).len() implies key_lt(move_key(#[trigger] s.push(x)[a]), move_key(#[trigger] s.push(x)[b])) by {
        assert(s.push(x)[a] == s[a]);
        if b < s.len() {
            assert(s.push(x)[b] == s[b]);
        }
    }
    assert forall|a: int| 0 <= a < s.push(x).len() implies #[trigger] s.push(x)[a] == x || key_lt(move_key(s.push(x)[a]), move_key(x)) by {
        if a < s.len() {
            assert(s.push(x)[a] == s[a]);
        }
    }
}

/// Every way to swap two tasks of one machine, by machine, then first and second position.
pub fn swap_single_machine(schedule: &ScheduleBuilder) -> (r: Vec<Move>)
    ensures
        forall|k: int| 0 <= k < r@.len() ==> #[trigger] r@[k] is SwapSingle && schedule.applicable(r@[k]),
        forall|m: usize, i: usize, j: usize|
            #[trigger] schedule.applicable(Move::SwapSingle { machine: m, i, j }) ==> r@.contains(
                Move::SwapSingle { machine: m, i, j },
            ),
        forall|x: int, y: int| 0 <= x < y < r@.len() ==> key_lt(move_key(#[trigger] r@[x]), move_key(#[trigger] r@[y])),
        r@.no_duplicates(),
{
    let mut out: Vec<Move> = Vec::new();
    let mut m: usize = 0;
    while m < schedule.machines_len()
        invariant
            m <= schedule.machine_count(),
            forall|x: int, y: int| 0 <= x < y < out@.len() ==> key_lt(move_key(#[trigger] out@[x]), move_key(#[trigger] out@[y])),
            forall|x: int| 0 <= x < out@.len() ==> key_lt(move_key(#[trigger] out@[x]), (m as int, 0, 0, 0)),
            forall|k: int| 0 <= k < out@.len() ==> #[trigger] out@[k] is SwapSingle && schedule.applicable(out@[k]),
            forall|m2: usize, i: usize, j: usize|
                m2 < m && #[trigger] schedule.applicable(Move::SwapSingle { machine: m2, i, j })
                    ==> out@.contains(Move::SwapSingle { machine: m2, i, j }),
        decreases schedule.machine_count() - m,
    {
        let len = schedule.machine_tasks_len(m);
        let mut i: usize = 0;
        while i < len
            invariant
                m < schedule.machine_count(),
                len == schedule.machine(m as int).len(),
                i <= len,
                forall|x: int, y: int| 0 <= x < y < out@.len() ==> key_lt(move_key(#[trigger] out@[x]), move_key(#[trigger] out@[y])),
                forall|x: int| 0 <= x < out@.len() ==> key_lt(move_key(#[trigger] out@[x]), (m as int, i as int, 0, 0)),
                forall|k: int| 0 <= k < out@.len() ==> #[trigger] out@[k] is SwapSingle && schedule.applicable(out@[k]),
                forall|m2: usize, i2: usize, j: usize|
                    (m2 < m || (m2 == m && i2 < i)) && #[trigger] schedule.applicable(
                        Move::SwapSingle { machine: m2, i: i2, j },
                    ) ==> out@.contains(Move::SwapSingle { machine: m2, i: i2, j }),
            decreases len - i,
        {
            let mut j: usize = i + 1;
            while j < len
                invariant
                    m < schedule.machine_count(),
                    len == schedule.machine(m as int).len(),
                    i < len,
                    i < j <= len,
                    forall|x: int, y: int| 0 <= x < y < out@.len() ==> key_lt(move_key(#[trigger] out@[x]), move_key(#[trigger] out@[y])),
                    forall|x: int| 0 <= x < out@.len() ==> key_lt(move_key(#[trigger] out@[x]), (m as int, i as int, j as int, 0)),
                    forall|k: int| 0 <= k < out@.len() ==> #[trigger] out@[k] is SwapSingle && schedule.applicable(out@[k]),
                    forall|m2: usize, i2: usize, j2: usize|
                        (m2 < m || (m2 == m && i2 < i) || (m2 == m && i2 == i && j2 < j))
                            && #[trigger] schedule.applicable(
                            Move::SwapSingle { machine: m2, i: i2, j: j2 },
                        ) ==> out@.contains(Move::SwapSingle { machine: m2, i: i2, j: j2 }),
                decreases len - j,
            {
                let mv = Move::SwapSingle { machine: m, i, j };
                proof {
                    lemma_push_keeps(out@, mv);
                    lemma_push_sorted(out@, mv);
                }
                out.push(mv);
                j = j + 1;
            }
            i = i + 1;
        }
        m = m + 1;
    }
    out
}

/// Every way to move a task of one machine to another position of it, by machine, then source and target position.
pub fn move_single_machine(schedule: &ScheduleBuilder) -> (r: Vec<Move>)
    ensures
        forall|k: int|
            0 <= k < r@.len() ==> #[trigger] r@[k] is MoveSingle && schedule.applicable(r@[k]),
        forall|x: int, y: int| 0 <= x < y < r@.len() ==> key_lt(move_key(#[trigger] r@[x]), move_key(#[trigger] r@[y])),
        r@.no_duplicates(),
        forall|m2: usize, i2: usize, j2: usize|
            #[trigger] schedule.applicable(Move::MoveSingle { machine: m2, i: i2, j: j2 })
                ==> r@.contains(Move::MoveSingle { machine: m2, i: i2, j: j2 }),
{
    let mut out: Vec<Move> = Vec::new();
    let bound_m = schedule.machines_len();
    let mut m: usize = 0;
    while m < bound_m
        invariant
            bound_m == schedule.machine_count(),
            m <= bound_m,
            forall|k: int|
                0 <= k < out@.len() ==> #[trigger] out@[k] is MoveSingle && schedule.applicable(out@[k]),
            forall|x: int, y: int| 0 <= x < y < out@.len() ==> key_lt(move_key(#[trigger] out@[x]), move_key(#[trigger] out@[y])),
            forall|x: int| 0 <= x < out@.len() ==> key_lt(move_key(#[trigger] out@[x]), (m as int, 0, 0, 0)),
            forall|m2: usize, i2: usize, j2: usize|
                (m2 < m) && #[trigger] schedule.applicable(
                    Move::MoveSingle { machine: m2, i: i2, j: j2 },
                ) ==> out@.contains(Move::MoveSingle { machine: m2, i: i2, j: j2 }),
        decreases bound_m - m,
    {
        let bound_i = schedule.machine_tasks_len(m);
        let mut i: usize = 0;
        while i < bound_i
            invariant
                bound_m == schedule.machine_count(),
                m < bound_m,
                bound_i == schedule.machine(m as int).len(),
                i <= bound_i,
                forall|k: int|
                    0 <= k < out@.len() ==> #[trigger] out@[k] is MoveSingle && schedule.applicable(out@[k]),
                forall|x: int, y: int| 0 <= x < y < out@.len() ==> key_lt(move_key(#[trigger] out@[x]), move_key(#[trigger] out@[y])),
                forall|x: int| 0 <= x < out@.len() ==> key_lt(move_key(#[trigger] out@[x]), (m as int, i as int, 0, 0)),
                forall|m2: usize, i2: usize, j2: usize|
                    (m2 < m || (m2 == m && i2 < i)) && #[trigger] schedule.applicable(
                        Move::MoveSingle { machine: m2, i: i2, j: j2 },
                    ) ==> out@.contains(Move::MoveSingle { machine: m2, i: i2, j: j2 }),
            decreases bound_i - i,
        {
            let bound_j = schedule.machine_tasks_len(m);
            let mut j: usize = 0;
            while j < bound_j
                invariant
                    bound_m == schedule.machine_count(),
                    m < bound_m,
                    bound_i == schedule.machine(m as int).len(),
                    i < bound_i,
                    bound_j == schedule.machine(m as int).len(),
                    j <= bound_j,
                    forall|k: int|
                        0 <= k < out@.len() ==> #[trigger] out@[k] is MoveSingle && schedule.applicable(out@[k]),
                    forall|x: int, y: int| 0 <= x < y < out@.len() ==> key_lt(move_key(#[trigger] out@[x]), move_key(#[trigger] out@[y])),
                    forall|x: int| 0 <= x < out@.len() ==> key_lt(move_key(#[trigger] out@[x]), (m as int, i as int, j as int, 0)),
                    forall|m2: usize, i2: usize, j2: usize|
                        (m2 < m || (m2 == m && i2 < i) || (m2 == m && i2 == i && j2 < j)) && #[trigger] schedule.applicable(
                            Move::MoveSingle { machine: m2, i: i2, j: j2 },
                        ) ==> out@.contains(Move::MoveSingle { machine: m2, i: i2, j: j2 }),
                decreases bound_j - j,
            {
                if i != j {
                    let mv = Move::MoveSingle { machine: m, i, j };
                    proof {
                        lemma_push_keeps(out@, mv);
                        lemma_push_sorted(out@, mv);
                    }
                    out.push(mv);
                }
                j = j + 1;
            }
            i = i + 1;
        }
        m = m + 1;
    }
    out
}

/// Every way to swap tasks of two distinct machines, by first machine, second machine, then positions.
pub fn swap_two_machines(schedule: &ScheduleBuilder) -> (r: Vec<Move>)
    ensures
        forall|k: int|
            0 <= k < r@.len() ==> #[trigger] r@[k] is SwapTwo && schedule.applicable(r@[k]),
        forall|x: int, y: int| 0 <= x < y < r@.len() ==> key_lt(move_key(#[trigger] r@[x]), move_key(#[trigger] r@[y])),
        r@.no_duplicates(),
        forall|f2: usize, g2: usize, i2: usize, j2: usize|
            #[trigger] schedule.applicable(Move::SwapTwo { first: f2, second: g2, i: i2, j: j2 })
                ==> r@.contains(Move::SwapTwo { first: f2, second: g2, i: i2, j: j2 }),
{
    let mut out: Vec<Move> = Vec::new();
    let bound_f = schedule.machines_len();
    let mut f: usize = 0;
    while f < bound_f
        invariant
            bound_f == schedule.machine_count(),
            f <= bound_f,
            forall|k: int|
                0 <= k < out@.len() ==> #[trigger] out@[k] is SwapTwo && schedule.applicable(out@[k]),
            forall|x: int, y: int| 0 <= x < y < out@.len() ==> key_lt(move_key(#[trigger] out@[x]), move_key(#[trigger] out@[y])),
            forall|x: int| 0 <= x < out@.len() ==> key_lt(move_key(#[trigger] out@[x]), (f as int, 0, 0, 0)),
            forall|f2: usize, g2: usize, i2: usize, j2: usize|
                (f2 < f) && #[trigger] schedule.applicable(
                    Move::SwapTwo { first: f2, second: g2, i: i2, j: j2 },
                ) ==> out@.contains(Move::SwapTwo { first: f2, second: g2, i: i2, j: j2 }),
        decreases bound_f - f,
    {
        let bound_g = schedule.machines_len();
        let mut g: usize = 0;
        while g < bound_g
            invariant
                bound_f == schedule.machine_count(),
                f < bound_f,
                bound_g == schedule.machine_count(),
                g <= bound_g,
                forall|k: int|
                    0 <= k < out@.len() ==> #[trigger] out@[k] is SwapTwo && schedule.applicable(out@[k]),
                forall|x: int, y: int| 0 <= x < y < out@.len() ==> key_lt(move_key(#[trigger] out@[x]), move_key(#[trigger] out@[y])),
                forall|x: int| 0 <= x < out@.len() ==> key_lt(move_key(#[trigger] out@[x]), (f as int, g as int, 0, 0)),
                forall|f2: usize, g2: usize, i2: usize, j2: usize|
                    (f2 < f || (f2 == f && g2 < g)) && #[trigger] schedule.applicable(
                        Move::SwapTwo { first: f2, second: g2, i: i2, j: j2 },
                    ) ==> out@.contains(Move::SwapTwo { first: f2, second: g2, i: i2, j: j2 }),
            decreases bound_g - g,
        {
            let bound_i = schedule.machine_tasks_len(f);
            let mut i: usize = 0;
            while i < bound_i
                invariant
                    bound_f == schedule.machine_count(),
                    f < bound_f,
                    bound_g == schedule.machine_count(),
                    g < bound_g,
                    bound_i == schedule.machine(f as int).len(),
                    i <= bound_i,
                    forall|k: int|
                        0 <= k < out@.len() ==> #[trigger] out@[k] is SwapTwo && schedule.applicable(out@[k]),
                    forall|x: int, y: int| 0 <= x < y < out@.len() ==> key_lt(move_key(#[trigger] out@[x]), move_key(#[trigger] out@[y])),
                    forall|x: int| 0 <= x < out@.len() ==> key_lt(move_key(#[trigger] out@[x]), (f as int, g as int, i as int, 0)),
                    forall|f2: usize, g2: usize, i2: usize, j2: usize|
                        (f2 < f || (f2 == f && g2 < g) || (f2 == f && g2 == g && i2 < i)) && #[trigger] schedule.applicable(
                            Move::SwapTwo { first: f2, second: g2, i: i2, j: j2 },
                        ) ==> out@.contains(Move::SwapTwo { first: f2, second: g2, i: i2, j: j2 }),
                decreases bound_i - i,
            {
                let bound_j = schedule.machine_tasks_len(g);
                let mut j: usize = 0;
                while j < bound_j
                    invariant
                        bound_f == schedule.machine_count(),
                        f < bound_f,
                        bound_g == schedule.machine_count(),
                        g < bound_g,
                        bound_i == schedule.machine(f as int).len(),
                        i < bound_i,
                        bound_j == schedule.machine(g as int).len(),
                        j <= bound_j,
                        forall|k: int|
                            0 <= k < out@.len() ==> #[trigger] out@[k] is SwapTwo && schedule.applicable(out@[k]),
                        forall|x: int, y: int| 0 <= x < y < out@.len() ==> key_lt(move_key(#[trigger] out@[x]), move_key(#[trigger] out@[y])),
                        forall|x: int| 0 <= x < out@.len() ==> key_lt(move_key(#[trigger] out@[x]), (f as int, g as int, i as int, j as int)),
                        forall|f2: usize, g2: usize, i2: usize, j2: usize|
                            (f2 < f || (f2 == f && g2 < g) || (f2 == f && g2 == g && i2 < i) || (f2 == f && g2 == g && i2 == i && j2 < j)) && #[trigger] schedule.applicable(
                                Move::SwapTwo { first: f2, second: g2, i: i2, j: j2 },
                            ) ==> out@.contains(Move::SwapTwo { first: f2, second: g2, i: i2, j: j2 }),
                    decreases bound_j - j,
                {
                    if f != g {
                        let mv = Move::SwapTwo { first: f, second: g, i, j };
                        proof {
                            lemma_push_keeps(out@, mv);
                            lemma_push_sorted(out@, mv);
                        }
                        out.push(mv);
                    }
                    j = j + 1;
                }
                i = i + 1;
            }
            g = g + 1;
        }
        f = f + 1;
    }
    out
}

/// Every way to move a task of one machine to a position of another, the end included, by source machine, target machine, then positions.
pub fn move_two_machines(schedule: &ScheduleBuilder) -> (r: Vec<Move>)
    ensures
        forall|k: int|
            0 <= k < r@.len() ==> #[trigger] r@[k] is MoveTwo && schedule.applicable(r@[k]),
        forall|x: int, y: int| 0 <= x < y < r@.len() ==> key_lt(move_key(#[trigger] r@[x]), move_key(#[trigger] r@[y])),
        r@.no_duplicates(),
        forall|f2: usize, g2: usize, i2: usize, j2: usize|
            #[trigger] schedule.applicable(Move::MoveTwo { first: f2, second: g2, i: i2, j: j2 })
                ==> r@.contains(Move::MoveTwo { first: f2, second: g2, i: i2, j: j2 }),
{
    let mut out: Vec<Move> = Vec::new();
    let bound_f = schedule.machines_len();
    let mut f: usize = 0;
    while f < bound_f
        invariant
            bound_f == schedule.machine_count(),
            f <= bound_f,
            forall|k: int|
                0 <= k < out@.len() ==> #[trigger] out@[k] is MoveTwo && schedule.applicable(out@[k]),
            forall|x: int, y: int| 0 <= x < y < out@.len() ==> key_lt(move_key(#[trigger] out@[x]), move_key(#[trigger] out@[y])),
            forall|x: int| 0 <= x < out@.len() ==> key_lt(move_key(#[trigger] out@[x]), (f as int, 0, 0, 0)),
            forall|f2: usize, g2: usize, i2: usize, j2: usize|
                (f2 < f) && #[trigger] schedule.applicable(
                    Move::MoveTwo { first: f2, second: g2, i: i2, j: j2 },
                ) ==> out@.contains(Move::MoveTwo { first: f2, second: g2, i: i2, j: j2 }),
        decreases bound_f - f,
    {
        let bound_g = schedule.machines_len();
        let mut g: usize = 0;
        while g < bound_g
            invariant
                bound_f == schedule.machine_count(),
                f < bound_f,
                bound_g == schedule.machine_count(),
                g <= bound_g,
                forall|k: int|
                    0 <= k < out@.len() ==> #[trigger] out@[k] is MoveTwo && schedule.applicable(out@[k]),
                forall|x: int, y: int| 0 <= x < y < out@.len() ==> key_lt(move_key(#[trigger] out@[x]), move_key(#[trigger] out@[y])),
                forall|x: int| 0 <= x < out@.len() ==> key_lt(move_key(#[trigger] out@[x]), (f as int, g as int, 0, 0)),
                forall|f2: usize, g2: usize, i2: usize, j2: usize|
                    (f2 < f || (f2 == f && g2 < g)) && #[trigger] schedule.applicable(
                        Move::MoveTwo { first: f2, second: g2, i: i2, j: j2 },
                    ) ==> out@.contains(Move::MoveTwo { first: f2, second: g2, i: i2, j: j2 }),
            decreases bound_g - g,
        {
            let bound_i = schedule.machine_tasks_len(f);
            let mut i: usize = 0;
            while i < bound_i
                invariant
                    bound_f == schedule.machine_count(),
                    f < bound_f,
                    bound_g == schedule.machine_count(),
                    g < bound_g,
                    bound_i == schedule.machine(f as int).len(),
                    i <= bound_i,
                    forall|k: int|
                        0 <= k < out@.len() ==> #[trigger] out@[k] is MoveTwo && schedule.applicable(out@[k]),
                    forall|x: int, y: int| 0 <= x < y < out@.len() ==> key_lt(move_key(#[trigger] out@[x]), move_key(#[trigger] out@[y])),
                    forall|x: int| 0 <= x < out@.len() ==> key_lt(move_key(#[trigger] out@[x]), (f as int, g as int, i as int, 0)),
                    forall|f2: usize, g2: usize, i2: usize, j2: usize|
                        (f2 < f || (f2 == f && g2 < g) || (f2 == f && g2 == g && i2 < i)) && #[trigger] schedule.applicable(
                            Move::MoveTwo { first: f2, second: g2, i: i2, j: j2 },
                        ) ==> out@.contains(Move::MoveTwo { first: f2, second: g2, i: i2, j: j2 }),
                decreases bound_i - i,
            {
                let bound_j = schedule.machine_tasks_len(g);
                let mut j: usize = 0;
                let mut done_j = false;
                while !done_j
                    invariant
                        bound_f == schedule.machine_count(),
                        f < bound_f,
                        bound_g == schedule.machine_count(),
                        g < bound_g,
                        bound_i == schedule.machine(f as int).len(),
                        i < bound_i,
                        bound_j == schedule.machine(g as int).len(),
                        j <= bound_j,
                        done_j ==> j == bound_j,
                        forall|k: int|
                            0 <= k < out@.len() ==> #[trigger] out@[k] is MoveTwo && schedule.applicable(out@[k]),
                        forall|x: int, y: int| 0 <= x < y < out@.len() ==> key_lt(move_key(#[trigger] out@[x]), move_key(#[trigger] out@[y])),
                        forall|x: int| 0 <= x < out@.len() ==> key_lt(move_key(#[trigger] out@[x]), (f as int, g as int, i as int, (if done_j { j + 1 } else { j as int }))),
                        forall|f2: usize, g2: usize, i2: usize, j2: usize|
                            (f2 < f || (f2 == f && g2 < g) || (f2 == f && g2 == g && i2 < i) || (f2 == f && g2 == g && i2 == i && (j2 < j || (done_j && j2 == j)))) && #[trigger] schedule.applicable(
                                Move::MoveTwo { first: f2, second: g2, i: i2, j: j2 },
                            ) ==> out@.contains(Move::MoveTwo { first: f2, second: g2, i: i2, j: j2 }),
                    decreases bound_j - j + (if done_j { 0int } else { 1int }),
                {
                    if f != g {
                        let mv = Move::MoveTwo { first: f, second: g, i, j };
                        proof {
                            lemma_push_keeps(out@, mv);
                            lemma_push_sorted(out@, mv);
                        }
                        out.push(mv);
                    }
                    if j == bound_j {
                        done_j = true;
                    } else {
                        j = j + 1;
                    }
                }
                i = i + 1;
            }
            g = g + 1;
        }
        f = f + 1;
    }
    out
}

/// Every way to swap a scheduled task with a tardy one, by machine, position, then tardy index.
pub fn replace_with_tardy(schedule: &ScheduleBuilder) -> (r: Vec<Move>)
    ensures
        forall|k: int|
            0 <= k < r@.len() ==> #[trigger] r@[k] is ReplaceWithTardy && schedule.applicable(r@[k]),
        forall|x: int, y: int| 0 <= x < y < r@.len() ==> key_lt(move_key(#[trigger] r@[x]), move_key(#[trigger] r@[y])),
        r@.no_duplicates(),
        forall|m2: usize, i2: usize, j2: usize|
            #[trigger] schedule.applicable(Move::ReplaceWithTardy { machine: m2, i: i2, j: j2 })
                ==> r@.contains(Move::ReplaceWithTardy { machine: m2, i: i2, j: j2 }),
{
    let mut out: Vec<Move> = Vec::new();
    let bound_m = schedule.machines_len();
    let mut m: usize = 0;
    while m < bound_m
        invariant
            bound_m == schedule.machine_count(),
            m <= bound_m,
            forall|k: int|
                0 <= k < out@.len() ==> #[trigger] out@[k] is ReplaceWithTardy && schedule.applicable(out@[k]),
            forall|x: int, y: int| 0 <= x < y < out@.len() ==> key_lt(move_key(#[trigger] out@[x]), move_key(#[trigger] out@[y])),
            forall|x: int| 0 <= x < out@.len() ==> key_lt(move_key(#[trigger] out@[x]), (m as int, 0, 0, 0)),
            forall|m2: usize, i2: usize, j2: usize|
                (m2 < m) && #[trigger] schedule.applicable(
                    Move::ReplaceWithTardy { machine: m2, i: i2, j: j2 },
                ) ==> out@.contains(Move::ReplaceWithTardy { machine: m2, i: i2, j: j2 }),
        decreases bound_m - m,
    {
        let bound_i = schedule.machine_tasks_len(m);
        let mut i: usize = 0;
        while i < bound_i
            invariant
                bound_m == schedule.machine_count(),
                m < bound_m,
                bound_i == schedule.machine(m as int).len(),
                i <= bound_i,
                forall|k: int|
                    0 <= k < out@.len() ==> #[trigger] out@[k] is ReplaceWithTardy && schedule.applicable(out@[k]),
                forall|x: int, y: int| 0 <= x < y < out@.len() ==> key_lt(move_key(#[trigger] out@[x]), move_key(#[trigger] out@[y])),
                forall|x: int| 0 <= x < out@.len() ==> key_lt(move_key(#[trigger] out@[x]), (m as int, i as int, 0, 0)),
                forall|m2: usize, i2: usize, j2: usize|
                    (m2 < m || (m2 == m && i2 < i)) && #[trigger] schedule.applicable(
                        Move::ReplaceWithTardy { machine: m2, i: i2, j: j2 },
                    ) ==> out@.contains(Move::ReplaceWithTardy { machine: m2, i: i2, j: j2 }),
            decreases bound_i - i,
        {
            let bound_j = schedule.tardy_len();
            let mut j: usize = 0;
            while j < bound_j
                invariant
                    bound_m == schedule.machine_count(),
                    m < bound_m,
                    bound_i == schedule.machine(m as int).len(),
                    i < bound_i,
                    bound_j == schedule.tardy_seq().len(),
                    j <= bound_j,
                    forall|k: int|
                        0 <= k < out@.len() ==> #[trigger] out@[k] is ReplaceWithTardy && schedule.applicable(out@[k]),
                    forall|x: int, y: int| 0 <= x < y < out@.len() ==> key_lt(move_key(#[trigger] out@[x]), move_key(#[trigger] out@[y])),
                    forall|x: int| 0 <= x < out@.len() ==> key_lt(move_key(#[trigger] out@[x]), (m as int, i as int, j as int, 0)),
                    forall|m2: usize, i2: usize, j2: usize|
                        (m2 < m || (m2 == m && i2 < i) || (m2 == m && i2 == i && j2 < j)) && #[trigger] schedule.applicable(
                            Move::ReplaceWithTardy { machine: m2, i: i2, j: j2 },
                        ) ==> out@.contains(Move::ReplaceWithTardy { machine: m2, i: i2, j: j2 }),
                decreases bound_j - j,
            {
                if true {
                    let mv = Move::ReplaceWithTardy { machine: m, i, j };
                    proof {
                        lemma_push_keeps(out@, mv);
                        lemma_push_sorted(out@, mv);
                    }
                    out.push(mv);
                }
                j = j + 1;
            }
            i = i + 1;
        }
        m = m + 1;
    }
    out
}

/// Every way to insert a tardy task into a machine, the end included, by machine, position, then tardy index.
pub fn add_tardy(schedule: &ScheduleBuilder) -> (r: Vec<Move>)
    ensures
        forall|k: int|
            0 <= k < r@.len() ==> #[trigger] r@[k] is AddTardy && schedule.applicable(r@[k]),
        forall|x: int, y: int| 0 <= x < y < r@.len() ==> key_lt(move_key(#[trigger] r@[x]), move_key(#[trigger] r@[y])),
        r@.no_duplicates(),
        forall|m2: usize, i2: usize, j2: usize|
            #[trigger] schedule.applicable(Move::AddTardy { machine: m2, i: i2, j: j2 })
                ==> r@.contains(Move::AddTardy { machine: m2, i: i2, j: j2 }),
{
    let mut out: Vec<Move> = Vec::new();
    let bound_m = schedule.machines_len();
    let mut m: usize = 0;
    while m < bound_m
        invariant
            bound_m == schedule.machine_count(),
            m <= bound_m,
            forall|k: int|
                0 <= k < out@.len() ==> #[trigger] out@[k] is AddTardy && schedule.applicable(out@[k]),
            forall|x: int, y: int| 0 <= x < y < out@.len() ==> key_lt(move_key(#[trigger] out@[x]), move_key(#[trigger] out@[y])),
            forall|x: int| 0 <= x < out@.len() ==> key_lt(move_key(#[trigger] out@[x]), (m as int, 0, 0, 0)),
            forall|m2: usize, i2: usize, j2: usize|
                (m2 < m) && #[trigger] schedule.applicable(
                    Move::AddTardy { machine: m2, i: i2, j: j2 },
                ) ==> out@.contains(Move::AddTardy { machine: m2, i: i2, j: j2 }),
        decreases bound_m - m,
    {
        let bound_i = schedule.machine_tasks_len(m);
        let mut i: usize = 0;
        let mut done_i = false;
        while !done_i
            invariant
                bound_m == schedule.machine_count(),
                m < bound_m,
                bound_i == schedule.machine(m as int).len(),
                i <= bound_i,
                done_i ==> i == bound_i,
                forall|k: int|
                    0 <= k < out@.len() ==> #[trigger] out@[k] is AddTardy && schedule.applicable(out@[k]),
                forall|x: int, y: int| 0 <= x < y < out@.len() ==> key_lt(move_key(#[trigger] out@[x]), move_key(#[trigger] out@[y])),
                forall|x: int| 0 <= x < out@.len() ==> key_lt(move_key(#[trigger] out@[x]), (m as int, (if done_i { i + 1 } else { i as int }), 0, 0)),
                forall|m2: usize, i2: usize, j2: usize|
                    (m2 < m || (m2 == m && (i2 < i || (done_i && i2 == i)))) && #[trigger] schedule.applicable(
                        Move::AddTardy { machine: m2, i: i2, j: j2 },
                    ) ==> out@.contains(Move::AddTardy { machine: m2, i: i2, j: j2 }),
            decreases bound_i - i + (if done_i { 0int } else { 1int }),
        {
            let bound_j = schedule.tardy_len();
            let mut j: usize = 0;
            while j < bound_j
                invariant
                    bound_m == schedule.machine_count(),
                    m < bound_m,
                    bound_i == schedule.machine(m as int).len(),
                    i <= bound_i,
                    !done_i,
                    bound_j == schedule.tardy_seq().len(),
                    j <= bound_j,
                    forall|k: int|
                        0 <= k < out@.len() ==> #[trigger] out@[k] is AddTardy && schedule.applicable(out@[k]),
                    forall|x: int, y: int| 0 <= x < y < out@.len() ==> key_lt(move_key(#[trigger] out@[x]), move_key(#[trigger] out@[y])),
                    forall|x: int| 0 <= x < out@.len() ==> key_lt(move_key(#[trigger] out@[x]), (m as int, i as int, j as int, 0)),
                    forall|m2: usize, i2: usize, j2: usize|
                        (m2 < m || (m2 == m && i2 < i) || (m2 == m && i2 == i && j2 < j)) && #[trigger] schedule.applicable(
                            Move::AddTardy { machine: m2, i: i2, j: j2 },
                        ) ==> out@.contains(Move::AddTardy { machine: m2, i: i2, j: j2 }),
                decreases bound_j - j,
            {
                if true {
                    let mv = Move::AddTardy { machine: m, i, j };
                    proof {
                        lemma_push_keeps(out@, mv);
                        lemma_push_sorted(out@, mv);
                    }
                    out.push(mv);
                }
                j = j + 1;
            }
            if i == bound_i {
                done_i = true;
            } else {
                i = i + 1;
            }
        }
        m = m + 1;
    }
    out
}

} // verus!
