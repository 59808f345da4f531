//! Instances and schedules in the text format.

use crate::deserializer::Deserializer;
use crate::error::Result;
use crate::problem::{listed, Conflict, ConflictGraph, Instance, Task};
use crate::deserializer::{
    unsigned_value, all_digits, digit_value, digits_value, is_digit, is_white, line_end, line_tokens, split_spaces,
    trim, trim_end, trim_start,
};
use crate::serializer::{decimal, digit, with_new_line, with_white_space, Serializer};
use crate::solution::{Schedule, ScheduleInfo};
use vstd::prelude::*;

verus! {

/// The text of one slot after `b`: processor and start time apart by a space, or '-'.
pub open spec fn slot_text(b: Seq<char>, slot: Option<ScheduleInfo>) -> Seq<char> {
    match slot {
        Some(info) => with_white_space(with_white_space(b) + decimal(info.processor as nat))
            + decimal(info.start_time as nat),
        None => b.push('-'),
    }
}

/// The text of the slots after `b`, one per line.
pub open spec fn slots_text(b: Seq<char>, slots: Seq<Option<ScheduleInfo>>) -> Seq<char>
    decreases slots.len(),
{
    if slots.len() == 0 {
        b
    } else {
        slot_text(with_new_line(slots_text(b, slots.drop_last())), slots.last())
    }
}

/// One line of two numbers apart by a space.
pub open spec fn pair_line(a: nat, b: nat) -> Seq<char> {
    decimal(a) + seq![' '] + decimal(b) + seq!['\n']
}

/// One line per task: its processing time and weight.
pub open spec fn tasks_text(ts: Seq<Task>) -> Seq<char>
    decreases ts.len(),
{
    if ts.len() == 0 {
        Seq::empty()
    } else {
        pair_line(ts[0].processing_time as nat, ts[0].weight as nat) + tasks_text(ts.drop_first())
    }
}

/// One line per conflict: its two task indices.
pub open spec fn conflicts_text(cs: Seq<Conflict>) -> Seq<char>
    decreases cs.len(),
{
    if cs.len() == 0 {
        Seq::empty()
    } else {
        pair_line(cs[0].0 as nat, cs[0].1 as nat) + conflicts_text(cs.drop_first())
    }
}

/// The text of an instance: the processor count and the deadline, the task lines, an empty
/// line, the conflict lines, an empty line.
pub open spec fn instance_text(processors: usize, deadline: u64, ts: Seq<Task>, cs: Seq<Conflict>) -> Seq<char> {
    pair_line(processors as nat, deadline as nat) + tasks_text(ts) + seq!['\n'] + conflicts_text(cs) + seq!['\n']
}

/// The text is that of some instance.
pub open spec fn well_formed_text(text: Seq<char>) -> bool {
    exists|pr: usize, dl: u64, ts: Seq<Task>, cs: Seq<Conflict>| text == #[trigger] instance_text(pr, dl, ts, cs)
}

/// The text spells out the instance: its processor count, deadline and tasks, and a conflict
/// list whose edges are those of its graph.
pub open spec fn decodes_to(text: Seq<char>, inst: Instance) -> bool {
    exists|cs: Seq<Conflict>|
        text == #[trigger] instance_text(inst.processors, inst.deadline, inst.tasks@, cs) && forall|a: usize, b: usize|
            inst.graph.conflicted(a, b) <==> listed(cs, a, b)
}

proof fn lemma_decimal_digits(n: nat)
    ensures
        all_digits(decimal(n)),
        digits_value(decimal(n)) == n,
        decimal(n).len() > 0,
        decimal(n)[0] != '+',
    decreases n,
{
    if n >= 10 {
        lemma_decimal_digits(n / 10);
        let s = decimal(n);
        assert(s.drop_last() =~= decimal(n / 10));
        assert(s[0] == decimal(n / 10)[0]);
    }
    let d = n % 10;
    assert(is_digit(digit(d)) && digit_value(digit(d)) == d);
    if n < 10 {
        assert(digits_value(decimal(n)) == digits_value(Seq::<char>::empty()) * 10 + digit_value(digit(n))) by {
            assert(decimal(n).drop_last() =~= Seq::<char>::empty());
        }
    }
}

proof fn lemma_line_end_at(a: Seq<char>, rest: Seq<char>)
    requires
        forall|i: int| 0 <= i < a.len() ==> a[i] != '\n',
    ensures
        line_end(a + seq!['\n'] + rest) == a.len() + 1,
    decreases a.len(),
{
    let s = a + seq!['\n'] + rest;
    if a.len() > 0 {
        assert(s.drop_first() =~= a.drop_first() + seq!['\n'] + rest);
        lemma_line_end_at(a.drop_first(), rest);
    } else {
        assert(s[0] == '\n');
    }
}

proof fn lemma_split_plain(s: Seq<char>)
    requires
        forall|i: int| 0 <= i < s.len() ==> s[i] != ' ',
    ensures
        split_spaces(s) == seq![s],
    decreases s.len(),
{
    if s.len() > 0 {
        lemma_split_plain(s.drop_last());
        assert(s.drop_last().push(s.last()) =~= s);
        assert(seq![s.drop_last()].update(0, s.drop_last().push(s.last())) =~= seq![s]);
    } else {
        assert(s =~= Seq::<char>::empty());
    }
}

proof fn lemma_split_after_space(x: Seq<char>, y: Seq<char>)
    requires
        forall|i: int| 0 <= i < x.len() ==> x[i] != ' ',
        forall|i: int| 0 <= i < y.len() ==> y[i] != ' ',
    ensures
        split_spaces(x + seq![' '] + y) == seq![x, y],
    decreases y.len(),
{
    let s = x + seq![' '] + y;
    if y.len() == 0 {
        assert(s.drop_last() =~= x);
        lemma_split_plain(x);
        assert(s.last() == ' ');
        assert(y =~= Seq::<char>::empty());
        assert(seq![x].push(Seq::<char>::empty()) =~= seq![x, y]);
    } else {
        lemma_split_after_space(x, y.drop_last());
        assert(s.drop_last() =~= x + seq![' '] + y.drop_last());
        assert(s.last() == y.last());
        assert(y.drop_last().push(y.last()) =~= y);
        assert(seq![x, y.drop_last()].update(1, y.drop_last().push(y.last())) =~= seq![x, y]);
    }
}

/// The tokens of a line of two numbers, and what is left after it.
pub proof fn lemma_pair_line(a: nat, b: nat, rest: Seq<char>)
    ensures
        line_tokens(pair_line(a, b) + rest) == seq![decimal(a), decimal(b)],
        (pair_line(a, b) + rest).skip(line_end(pair_line(a, b) + rest) as int) == rest,
        (pair_line(a, b) + rest).len() > 0,
{
    lemma_decimal_digits(a);
    lemma_decimal_digits(b);
    let x = decimal(a);
    let y = decimal(b);
    let body = x + seq![' '] + y;
    let s = pair_line(a, b) + rest;
    assert(s =~= body + seq!['\n'] + rest);
    assert forall|i: int| 0 <= i < body.len() implies body[i] != '\n' by {
        if i < x.len() {
            assert(is_digit(x[i]));
        } else if i > x.len() {
            assert(is_digit(y[i - x.len() - 1]));
        }
    }
    lemma_line_end_at(body, rest);
    let line = s.take(line_end(s) as int);
    assert(line =~= body + seq!['\n']);
    assert(!is_white(line[0])) by {
        assert(line[0] == x[0]);
        assert(is_digit(x[0]));
    }
    assert(trim_start(line) == line);
    assert(line.drop_last() =~= body);
    assert(trim_end(line) == trim_end(body));
    assert(body.last() == y.last());
    assert(is_digit(y[y.len() - 1]));
    assert(trim_end(body) == body);
    assert forall|i: int| 0 <= i < x.len() implies x[i] != ' ' by {
        assert(is_digit(x[i]));
    }
    assert forall|i: int| 0 <= i < y.len() implies y[i] != ' ' by {
        assert(is_digit(y[i]));
    }
    lemma_split_after_space(x, y);
    assert(s.skip(line_end(s) as int) =~= rest);
}

/// The tokens of an empty line, and what is left after it.
pub proof fn lemma_empty_line(rest: Seq<char>)
    ensures
        line_tokens(seq!['\n'] + rest) == seq![Seq::<char>::empty()],
        (seq!['\n'] + rest).skip(line_end(seq!['\n'] + rest) as int) == rest,
        (seq!['\n'] + rest).len() > 0,
{
    let s = seq!['\n'] + rest;
    assert(s[0] == '\n');
    let line = s.take(1);
    assert(line =~= seq!['\n']);
    assert(is_white('\n'));
    assert(line.drop_first() =~= Seq::<char>::empty());
    assert(trim_start(Seq::<char>::empty()) == Seq::<char>::empty());
    assert(line.len() > 0 && is_white(line[0]));
    assert(trim_start(line) == trim_start(line.drop_first()));
    assert(trim_start(line) == Seq::<char>::empty());
    assert(trim_end(Seq::<char>::empty()) == Seq::<char>::empty());
    assert(trim(line) == Seq::<char>::empty());
    assert(s.skip(1) =~= rest);
}

proof fn lemma_read_pair(d: Deserializer, a: nat, b: nat, rest: Seq<char>)
    requires
        d.pending().len() == 0,
        d.rest() == pair_line(a, b) + rest,
    ensures
        d.next_token() == Some(decimal(a)),
        d.after_peek() == (rest, seq![decimal(a), decimal(b)]),
        d.after_next() == (rest, seq![decimal(b)]),
        unsigned_value(decimal(a)) == Some(a),
        unsigned_value(decimal(b)) == Some(b),
        decimal(a).len() > 0,
{
    lemma_pair_line(a, b, rest);
    lemma_decimal_digits(a);
    lemma_decimal_digits(b);
    assert(seq![decimal(a), decimal(b)].drop_first() =~= seq![decimal(b)]);
}

proof fn lemma_read_empty(d: Deserializer, rest: Seq<char>)
    requires
        d.pending().len() == 0,
        d.rest() == seq!['\n'] + rest,
    ensures
        d.next_token() == Some(Seq::<char>::empty()),
        d.after_next() == (rest, Seq::<Seq<char>>::empty()),
{
    lemma_empty_line(rest);
    assert(seq![Seq::<char>::empty()].drop_first() =~= Seq::<Seq<char>>::empty());
}

proof fn lemma_read_pending(d: Deserializer)
    requires
        d.pending().len() > 0,
    ensures
        d.next_token() == Some(d.pending()[0]),
        d.after_next() == (d.rest(), d.pending().drop_first()),
{
}

/// Lexicographically less: less unread input, or as much and fewer pending tokens.
pub open spec fn smaller(a: (Seq<char>, Seq<Seq<char>>), b: (Seq<char>, Seq<Seq<char>>)) -> bool {
    a.0.len() < b.0.len() || (a.0.len() == b.0.len() && a.1.len() < b.1.len())
}

proof fn lemma_line_end_positive(s: Seq<char>)
    requires
        s.len() > 0,
    ensures
        1 <= crate::deserializer::line_end(s) <= s.len(),
    decreases s.len(),
{
    if s[0] != '\n' {
        if s.len() > 1 {
            lemma_line_end_positive(s.drop_first());
        } else {
            assert(s.drop_first().len() == 0);
            assert(crate::deserializer::line_end(s.drop_first()) == 0);
        }
    }
}

proof fn lemma_progress(d: Deserializer)
    ensures
        d.next_token() is Some ==> smaller(d.after_next(), (d.rest(), d.pending())),
        d.after_peek() == (d.rest(), d.pending()) || smaller(d.after_peek(), (d.rest(), d.pending())),
        d.next_token() is Some ==> d.after_peek().1.len() > 0,
{
    if d.pending().len() == 0 && d.rest().len() > 0 {
        lemma_line_end_positive(d.rest());
    }
}

/// Writes a schedule: one line per task, with its processor and start time, or '-' where it is
/// not scheduled; an empty line ends the list.
pub fn encode_schedule(serializer: &mut Serializer, schedule: &Schedule)
    ensures
        final(serializer)@ == with_new_line(slots_text(with_white_space(old(serializer)@), schedule.slots())).push('\n'),
{
    serializer.serialize_field();
    let ghost start = serializer@;
    let n = schedule.tasks_len();
    let mut t: usize = 0;
    while t < n
        invariant
            n == schedule.slots().len(),
            t <= n,
            serializer@ == slots_text(start, schedule.slots().take(t as int)),
        decreases n - t,
    {
        serializer.serialize_element();
        match schedule.get_schedule(t) {
            Some(info) => {
                serializer.serialize_field();
                serializer.serialize_usize(info.processor);
                serializer.serialize_field();
                serializer.serialize_u64(info.start_time);
            },
            None => {
                serializer.serialize_none();
            },
        }
        proof {
            let next = schedule.slots().take(t + 1);
            assert(next.drop_last() =~= schedule.slots().take(t as int));
            assert(next.last() == schedule.slots()[t as int]);
        }
        t = t + 1;
    }
    proof {
        assert(schedule.slots().take(t as int) =~= schedule.slots());
    }
    serializer.end();
}

/// The text of a schedule.
pub fn to_string(schedule: &Schedule) -> (r: String)
    ensures
        r@ == with_new_line(slots_text(Seq::empty(), schedule.slots())).push('\n'),
{
    let mut serializer = Serializer::default();
    encode_schedule(&mut serializer, schedule);
    serializer.finish()
}

/// Reads an instance: the processor count and the deadline, then one line per task with its
/// processing time and weight, an empty line, one line per conflict with its two task indices,
/// and an empty line.
pub fn decode_instance(d: &mut Deserializer) -> (r: Result<Instance>)
    requires
        old(d).wf(),
    ensures
        r matches Ok(inst) ==> inst.graph.wf(),
        old(d).pending().len() == 0 && well_formed_text(old(d).rest()) ==> (r matches Ok(inst) && decodes_to(
            old(d).rest(),
            inst,
        )),
{
    let ghost well_formed = d.pending().len() == 0 && well_formed_text(d.rest());
    let ghost text = d.rest();
    let ghost mut gp: usize = 0;
    let ghost mut gd: u64 = 0;
    let ghost mut gts: Seq<Task> = Seq::empty();
    let ghost mut gcs: Seq<Conflict> = Seq::empty();
    proof {
        if well_formed {
            let (pr, dl, ts, cs) = choose|pr: usize, dl: u64, ts: Seq<Task>, cs: Seq<Conflict>|
                d.rest() == #[trigger] instance_text(pr, dl, ts, cs);
            gp = pr;
            gd = dl;
            gts = ts;
            gcs = cs;
            let r1 = tasks_text(ts) + seq!['\n'] + conflicts_text(cs) + seq!['\n'];
            assert(d.rest() =~= pair_line(pr as nat, dl as nat) + r1);
            lemma_read_pair(*d, pr as nat, dl as nat, r1);
        }
    }
    let processors = match d.deserialize_usize() {
        Ok(v) => v,
        Err(e) => {
            return Err(e);
        },
    };
    proof {
        if well_formed {
            lemma_read_pending(*d);
        }
    }
    let deadline = match d.deserialize_u64() {
        Ok(v) => v,
        Err(e) => {
            return Err(e);
        },
    };
    let mut tasks: Vec<Task> = Vec::new();
    let mut more = true;
    let ghost mut i: int = 0;
    proof {
        if well_formed {
            assert(gts.skip(0) =~= gts);
            assert(d.rest() =~= tasks_text(gts.skip(0)) + (seq!['\n'] + conflicts_text(gcs) + seq!['\n']));
        }
    }
    while more
        invariant
            d.wf(),
            well_formed == (old(d).pending().len() == 0 && well_formed_text(old(d).rest())),
            well_formed ==> text == old(d).rest() && text == instance_text(gp, gd, gts, gcs),
            well_formed ==> processors == gp && deadline == gd,
            well_formed ==> 0 <= i <= gts.len() && tasks@ == gts.take(i) && d.pending().len() == 0,
            well_formed && more ==> d.rest() == tasks_text(gts.skip(i)) + (seq!['\n'] + conflicts_text(gcs)
                + seq!['\n']),
            well_formed && !more ==> i == gts.len() && d.rest() == conflicts_text(gcs) + seq!['\n'],
        decreases d.rest().len(), d.pending().len(), if more { 1int } else { 0int },
    {
        let ghost start = (d.rest(), d.pending());
        let ghost r2 = seq!['\n'] + conflicts_text(gcs) + seq!['\n'];
        proof {
            lemma_progress(*d);
            if well_formed {
                if i < gts.len() {
                    let t = gts.skip(i);
                    assert(t[0] == gts[i]);
                    assert(t.drop_first() =~= gts.skip(i + 1));
                    let rest = tasks_text(gts.skip(i + 1)) + r2;
                    assert(d.rest() =~= pair_line(gts[i].processing_time as nat, gts[i].weight as nat) + rest);
                    lemma_read_pair(*d, gts[i].processing_time as nat, gts[i].weight as nat, rest);
                } else {
                    assert(gts.skip(i).len() == 0);
                    assert(d.rest() =~= seq!['\n'] + (conflicts_text(gcs) + seq!['\n']));
                    lemma_read_empty(*d, conflicts_text(gcs) + seq!['\n']);
                }
            }
        }
        match d.next_element() {
            Ok(true) => {
                let ghost mid = *d;
                proof {
                    lemma_progress(mid);
                    if well_formed {
                        lemma_read_pending(mid);
                        assert(i < gts.len());
                        let pt = gts[i].processing_time as nat;
                        let wt = gts[i].weight as nat;
                        assert(mid.pending() == seq![decimal(pt), decimal(wt)]);
                        assert(mid.next_token() == Some(decimal(pt)));
                        assert(unsigned_value(decimal(pt)) == Some(pt));
                    }
                }
                let processing_time = match d.deserialize_u64() {
                    Ok(v) => v,
                    Err(e) => {
                        return Err(e);
                    },
                };
                let ghost second = *d;
                proof {
                    lemma_progress(second);
                    if well_formed {
                        lemma_read_pending(second);
                        assert(mid.pending().drop_first()[0] == mid.pending()[1]);
                    }
                }
                let weight = match d.deserialize_u64() {
                    Ok(v) => v,
                    Err(e) => {
                        return Err(e);
                    },
                };
                tasks.push(Task::new(processing_time, weight));
                proof {
                    if well_formed {
                        assert(gts.take(i + 1) =~= gts.take(i).push(gts[i]));
                        assert(second.pending().drop_first().len() == 0);
                        i = i + 1;
                    }
                }
            },
            Ok(false) => {
                more = false;
            },
            Err(e) => {
                return Err(e);
            },
        }
        assert(smaller((d.rest(), d.pending()), start));
    }
    let mut conflicts: Vec<Conflict> = Vec::new();
    let mut more = true;
    let ghost mut j: int = 0;
    proof {
        if well_formed {
            assert(gts.take(i) =~= gts);
            assert(gcs.skip(0) =~= gcs);
            assert(d.rest() =~= conflicts_text(gcs.skip(0)) + seq!['\n']);
        }
    }
    while more
        invariant
            d.wf(),
            well_formed == (old(d).pending().len() == 0 && well_formed_text(old(d).rest())),
            well_formed ==> text == old(d).rest() && text == instance_text(gp, gd, gts, gcs),
            well_formed ==> processors == gp && deadline == gd && tasks@ == gts,
            well_formed ==> 0 <= j <= gcs.len() && conflicts@ == gcs.take(j) && d.pending().len() == 0,
            well_formed && more ==> d.rest() == conflicts_text(gcs.skip(j)) + seq!['\n'],
            well_formed && !more ==> j == gcs.len(),
        decreases d.rest().len(), d.pending().len(), if more { 1int } else { 0int },
    {
        let ghost start = (d.rest(), d.pending());
        proof {
            lemma_progress(*d);
            if well_formed {
                if j < gcs.len() {
                    let t = gcs.skip(j);
                    assert(t[0] == gcs[j]);
                    assert(t.drop_first() =~= gcs.skip(j + 1));
                    let rest = conflicts_text(gcs.skip(j + 1)) + seq!['\n'];
                    assert(d.rest() =~= pair_line(gcs[j].0 as nat, gcs[j].1 as nat) + rest);
                    lemma_read_pair(*d, gcs[j].0 as nat, gcs[j].1 as nat, rest);
                } else {
                    assert(gcs.skip(j).len() == 0);
                    assert(d.rest() =~= seq!['\n'] + Seq::<char>::empty());
                    lemma_read_empty(*d, Seq::<char>::empty());
                }
            }
        }
        match d.next_element() {
            Ok(true) => {
                let ghost mid = *d;
                proof {
                    lemma_progress(mid);
                    if well_formed {
                        lemma_read_pending(mid);
                    }
                }
                let first = match d.deserialize_usize() {
                    Ok(v) => v,
                    Err(e) => {
                        return Err(e);
                    },
                };
                let ghost second = *d;
                proof {
                    lemma_progress(second);
                    if well_formed {
                        lemma_read_pending(second);
                        assert(mid.pending().drop_first()[0] == mid.pending()[1]);
                    }
                }
                let other = match d.deserialize_usize() {
                    Ok(v) => v,
                    Err(e) => {
                        return Err(e);
                    },
                };
                conflicts.push(Conflict(first, other));
                proof {
                    if well_formed {
                        assert(gcs.take(j + 1) =~= gcs.take(j).push(gcs[j]));
                        j = j + 1;
                    }
                }
            },
            Ok(false) => {
                more = false;
            },
            Err(e) => {
                return Err(e);
            },
        }
        assert(smaller((d.rest(), d.pending()), start));
    }
    proof {
        if well_formed {
            assert(gcs.take(j) =~= gcs);
        }
    }
    let graph = ConflictGraph::from_conflicts(conflicts);
    let r = Instance::new(processors, deadline, tasks, graph);
    proof {
        if well_formed {
            assert(text == instance_text(r.processors, r.deadline, r.tasks@, gcs));
            assert(decodes_to(text, r));
        }
    }
    Ok(r)
}

/// Reads an instance from its text.
pub fn deserialize(input: &str) -> (r: Result<Instance>)
    ensures
        r matches Ok(inst) ==> inst.graph.wf(),
        well_formed_text(input@) ==> (r matches Ok(inst) && decodes_to(input@, inst)),
{
    let mut d = Deserializer::new(input);
    decode_instance(&mut d)
}

} // verus!
