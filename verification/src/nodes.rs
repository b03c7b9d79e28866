use vstd::prelude::*;
use crate::layers::InfoWrapper;
use crate::util::{decode_u128, set_bit_positions};

verus! {

/// What the coordinator and the workers send each other: input values for
/// a worker (`None` ends them), results for the coordinator (`None` ends
/// them), the order to stop, and the signal to start sending results.
#[derive(Debug, PartialEq)]
pub enum Message<T> {
    Work(Option<T>),
    Result(Option<T>),
    Quit,
    StartTransmission,
}

/// How the coordinator forwards the results of one worker, phase by phase:
/// the number of results of each phase, the workers each phase goes to (a
/// bit field, see `decode_u128`), for each phase the positions at which a
/// padding value is due, and the (phase, worker, position) triples after
/// which a worker has all its input.
pub struct Mapping {
    pub count: Vec<u32>,
    pub map: Vec<Vec<u8>>,
    pub padding_pos: Vec<Vec<u32>>,
    pub end_pos: Vec<(u16, u8, u32)>,
}

/// A `Mapping` for a quantized network, whose padding value is its zero
/// point.
pub struct QuantizedMapping {
    pub count: Vec<u32>,
    pub map: Vec<Vec<u8>>,
    pub padding_pos: Vec<Vec<u32>>,
    pub end_pos: Vec<(u16, u8, u32)>,
    pub zero_point: u8,
}

/// The quantized weights that a worker needs for a run of outputs of one
/// kernel (see `WeightUnit`), with the kernel's bias, the fixed-point
/// multiplier `m` and the zero points of input, weights and output.
pub struct QuantizedWeightUnit {
    pub data: Vec<u8>,
    pub bias: u32,
    pub which_kernel: u16,
    pub count: i32,
    pub start_pos_in: Vec<i32>,
    pub info: InfoWrapper,
    pub m: u16,
    pub zero_points: (u8, u8, u8),
}

/// The coordinator: one forwarding table per worker.
pub struct Coordinator<T> {
    pub mapping: Vec<T>,
}

/// A worker: its weights, the inputs it has received, whether it was told
/// to stop, and the operations to apply to its results (1 for ReLU6).
pub struct Worker<T, U> {
    pub weights: Vec<T>,
    pub inputs: Vec<U>,
    pub status: bool,
    pub operations: Vec<u8>,
}

/// Where the coordinator stands in forwarding the results of one worker:
/// the phase, the position within the phase, and the number of results
/// forwarded so far.
#[derive(Clone, Copy, Debug, PartialEq)]
pub struct RouteCursor {
    pub cur_phase: usize,
    pub count: u32,
    pub total_count: usize,
}

impl RouteCursor {
    /// At the start of the first phase.
    pub fn new() -> (c: RouteCursor)
        ensures
            c == (RouteCursor { cur_phase: 0, count: 0, total_count: 0 }),
    {
        RouteCursor { cur_phase: 0, count: 0, total_count: 0 }
    }
}

/// Entry `e` of the end positions says that worker `x` has all its input
/// after position `count` of phase `phase` (phase and worker compared as
/// `u16` and `u8`).
pub open spec fn is_end_mark(e: (u16, u8, u32), phase: usize, x: usize, count: u32) -> bool {
    e.0 == (phase as u16) && e.1 == (x as u8) && e.2 == count
}

/// Number of entries of `end_pos` that end worker `x`'s input at this point.
pub open spec fn end_marks(end_pos: Seq<(u16, u8, u32)>, phase: usize, x: usize, count: u32) -> nat
    decreases end_pos.len(),
{
    if end_pos.len() == 0 {
        0
    } else {
        end_marks(end_pos.drop_last(), phase, x, count) + if is_end_mark(end_pos.last(), phase, x, count) {
            1nat
        } else {
            0nat
        }
    }
}

/// The messages for worker `x`: the value, then one end of input for each
/// end position that matches.
pub open spec fn messages_for<T>(x: usize, val: T, end_pos: Seq<(u16, u8, u32)>, phase: usize, count: u32) -> Seq<(usize, Message<T>)> {
    seq![(x, Message::Work(Some(val)))] + Seq::new(
        end_marks(end_pos, phase, x, count),
        |k: int| (x, Message::<T>::Work(None)),
    )
}

/// The messages that forward one value to the workers `next`, in order.
pub open spec fn plan_for<T>(next: Seq<usize>, val: T, end_pos: Seq<(u16, u8, u32)>, phase: usize, count: u32) -> Seq<(usize, Message<T>)>
    decreases next.len(),
{
    if next.len() == 0 {
        seq![]
    } else {
        plan_for(next.drop_last(), val, end_pos, phase, count) + messages_for(next.last(), val, end_pos, phase, count)
    }
}

proof fn lemma_end_marks_named(end_pos: Seq<(u16, u8, u32)>, phase: usize, x: usize, count: u32)
    requires
        end_marks(end_pos, phase, x, count) > 0,
    ensures
        exists|j: int|
            0 <= j < end_pos.len() && (#[trigger] end_pos[j]).0 == (phase as u16) && end_pos[j].1 == (x as u8)
                && end_pos[j].2 == count,
    decreases end_pos.len(),
{
    if end_pos.len() > 0 {
        let l = end_pos.len() - 1;
        if end_pos[l].0 == (phase as u16) && end_pos[l].1 == (x as u8) && end_pos[l].2 == count {
        } else {
            lemma_end_marks_named(end_pos.drop_last(), phase, x, count);
            let j = choose|j: int|
                0 <= j < end_pos.drop_last().len() && (#[trigger] end_pos.drop_last()[j]).0 == (phase as u16)
                    && end_pos.drop_last()[j].1 == (x as u8) && end_pos.drop_last()[j].2 == count;
            assert(end_pos[j] == end_pos.drop_last()[j]);
        }
    }
}

proof fn lemma_named_end_marks(end_pos: Seq<(u16, u8, u32)>, phase: usize, x: usize, count: u32, j: int)
    requires
        0 <= j < end_pos.len(),
        end_pos[j].0 == (phase as u16) && end_pos[j].1 == (x as u8) && end_pos[j].2 == count,
    ensures
        end_marks(end_pos, phase, x, count) > 0,
    decreases end_pos.len(),
{
    if j < end_pos.len() - 1 {
        assert(end_pos.drop_last()[j] == end_pos[j]);
        lemma_named_end_marks(end_pos.drop_last(), phase, x, count, j);
    }
}

/// Forwarding the value at position `count` of a phase hands every worker
/// of `next` the value, and an end of input to every worker of `next` that
/// an end position names at this phase and this very position.
pub proof fn lemma_every_worker_gets_value_and_end<T>(
    next: Seq<usize>,
    val: T,
    end_pos: Seq<(u16, u8, u32)>,
    phase: usize,
    count: u32,
)
    ensures
        forall|i: int|
            0 <= i < next.len() ==> plan_for(next, val, end_pos, phase, count).contains(
                (#[trigger] next[i], Message::Work(Some(val))),
            ),
        forall|i: int, j: int|
            0 <= i < next.len() && 0 <= j < end_pos.len() && (#[trigger] end_pos[j]).0 == (phase as u16)
                && end_pos[j].1 == (#[trigger] next[i] as u8) && end_pos[j].2 == count ==> plan_for(
                next,
                val,
                end_pos,
                phase,
                count,
            ).contains((next[i], Message::<T>::Work(None))),
    decreases next.len(),
{
    if next.len() > 0 {
        let prev = next.drop_last();
        lemma_every_worker_gets_value_and_end(prev, val, end_pos, phase, count);
        let a = plan_for(prev, val, end_pos, phase, count);
        let x = next.last();
        let b = messages_for(x, val, end_pos, phase, count);
        let pl = plan_for(next, val, end_pos, phase, count);
        assert(pl == a + b);
        assert forall|i: int| 0 <= i < next.len() implies pl.contains((#[trigger] next[i], Message::Work(Some(val)))) by {
            if i < prev.len() {
                assert(prev[i] == next[i]);
                let k = choose|k: int| 0 <= k < a.len() && a[k] == (prev[i], Message::Work(Some(val)));
                assert(pl[k] == a[k]);
            } else {
                assert(pl[a.len() as int] == b[0]);
            }
        }
        assert forall|i: int, j: int|
            0 <= i < next.len() && 0 <= j < end_pos.len() && (#[trigger] end_pos[j]).0 == (phase as u16)
                && end_pos[j].1 == (#[trigger] next[i] as u8) && end_pos[j].2 == count implies pl.contains(
            (next[i], Message::<T>::Work(None)),
        ) by {
            if i < prev.len() {
                assert(prev[i] == next[i]);
                let k = choose|k: int| 0 <= k < a.len() && a[k] == (prev[i], Message::<T>::Work(None));
                assert(pl[k] == a[k]);
            } else {
                lemma_named_end_marks(end_pos, phase, x, count, j);
                assert(b[1] == (x, Message::<T>::Work(None)));
                assert(pl[a.len() as int + 1] == b[1]);
            }
        }
    }
}

/// When the value at position `count` of a phase is forwarded, every
/// message of the plan goes to one of the workers `next`, and an end of
/// input goes to worker `x` only if some end position names this phase,
/// worker `x` and this very position: no worker is told its input ended
/// before or after the position where it ends.
pub proof fn lemma_end_of_input_only_where_marked<T>(
    next: Seq<usize>,
    val: T,
    end_pos: Seq<(u16, u8, u32)>,
    phase: usize,
    count: u32,
)
    ensures
        forall|i: int|
            0 <= i < plan_for(next, val, end_pos, phase, count).len() ==> next.contains(
                (#[trigger] plan_for(next, val, end_pos, phase, count)[i]).0,
            ),
        forall|i: int|
            0 <= i < plan_for(next, val, end_pos, phase, count).len() && (#[trigger] plan_for(
                next,
                val,
                end_pos,
                phase,
                count,
            )[i]).1 is Work && plan_for(next, val, end_pos, phase, count)[i].1->Work_0 is None ==> exists|j: int|
                0 <= j < end_pos.len() && (#[trigger] end_pos[j]).0 == (phase as u16) && end_pos[j].1 == (
                plan_for(next, val, end_pos, phase, count)[i].0 as u8) && end_pos[j].2 == count,
    decreases next.len(),
{
    if next.len() > 0 {
        let prev = next.drop_last();
        lemma_end_of_input_only_where_marked(prev, val, end_pos, phase, count);
        let a = plan_for(prev, val, end_pos, phase, count);
        let x = next.last();
        let b = messages_for(x, val, end_pos, phase, count);
        let pl = plan_for(next, val, end_pos, phase, count);
        assert(pl == a + b);
        assert forall|i: int| 0 <= i < pl.len() implies next.contains((#[trigger] pl[i]).0) by {
            if i < a.len() {
                assert(pl[i] == a[i]);
                let k = choose|k: int| 0 <= k < prev.len() && prev[k] == a[i].0;
                assert(next[k] == prev[k]);
            } else {
                assert(pl[i] == b[i - a.len()]);
                assert(next[next.len() - 1] == x);
            }
        }
        assert forall|i: int|
            0 <= i < pl.len() && (#[trigger] pl[i]).1 is Work && pl[i].1->Work_0 is None implies exists|j: int|
                0 <= j < end_pos.len() && (#[trigger] end_pos[j]).0 == (phase as u16) && end_pos[j].1 == (pl[i].0 as u8)
                    && end_pos[j].2 == count by {
            if i < a.len() {
                assert(pl[i] == a[i]);
            } else {
                assert(pl[i] == b[i - a.len()]);
                assert(i - a.len() >= 1);
                lemma_end_marks_named(end_pos, phase, x, count);
            }
        }
    }
}

/// The messages that forward `val`, the value at position `count` of phase
/// `cur_phase`, to the workers `next_mcus`: to each, in order, the value,
/// then an end of input for each end position that names that worker here.
pub fn send_plan<T: Copy>(
    next_mcus: &Vec<usize>,
    val: T,
    end_pos: &Vec<(u16, u8, u32)>,
    cur_phase: usize,
    count: u32,
) -> (plan: Vec<(usize, Message<T>)>)
    ensures
        plan@ == plan_for(next_mcus@, val, end_pos@, cur_phase, count),
{
    let mut plan: Vec<(usize, Message<T>)> = Vec::new();
    let mut i: usize = 0;
    proof {
        assert(next_mcus@.take(0) =~= Seq::<usize>::empty());
    }
    while i < next_mcus.len()
        invariant
            0 <= i <= next_mcus@.len(),
            plan@ == plan_for(next_mcus@.take(i as int), val, end_pos@, cur_phase, count),
        decreases next_mcus@.len() - i,
    {
        let x = next_mcus[i];
        let ghost before = plan@;
        plan.push((x, Message::Work(Some(val))));
        let mut e: usize = 0;
        proof {
            assert(end_pos@.take(0) =~= Seq::<(u16, u8, u32)>::empty());
        }
        while e < end_pos.len()
            invariant
                0 <= e <= end_pos@.len(),
                x == next_mcus@[i as int],
                plan@ == before + messages_for(x, val, end_pos@.take(e as int), cur_phase, count),
            decreases end_pos@.len() - e,
        {
            let ent = end_pos[e];
            proof {
                assert(end_pos@.take(e + 1).drop_last() =~= end_pos@.take(e as int));
            }
            if ent.0 == #[verifier::truncate] (cur_phase as u16) && ent.1 == #[verifier::truncate] (x as u8)
                && ent.2 == count {
                plan.push((x, Message::Work(None)));
                proof {
                    assert(plan@ =~= before + messages_for(x, val, end_pos@.take(e + 1), cur_phase, count));
                }
            } else {
                proof {
                    assert(plan@ =~= before + messages_for(x, val, end_pos@.take(e + 1), cur_phase, count));
                }
            }
            e = e + 1;
        }
        proof {
            assert(end_pos@.take(e as int) =~= end_pos@);
            assert(next_mcus@.take(i + 1).drop_last() =~= next_mcus@.take(i as int));
            assert(plan@ =~= plan_for(next_mcus@.take(i + 1), val, end_pos@, cur_phase, count));
        }
        i = i + 1;
    }
    proof {
        assert(next_mcus@.take(i as int) =~= next_mcus@);
    }
    plan
}

/// A padding value is due: the phase is not over, and its next padding
/// position is the current one.
pub open spec fn padding_due_at(counts: Seq<u32>, pads: Seq<Vec<u32>>, c: RouteCursor) -> bool {
    &&& c.cur_phase < counts.len()
    &&& pads[c.cur_phase as int]@.len() > 0
    &&& c.count == pads[c.cur_phase as int]@[0]
}

/// The cursor after one more value of the phase (`results` more results
/// forwarded): the next position, or the start of the next phase once the
/// phase's count is reached.
pub open spec fn advanced(counts: Seq<u32>, c: RouteCursor, results: int) -> RouteCursor {
    if c.count + 1 == counts[c.cur_phase as int] {
        RouteCursor { cur_phase: (c.cur_phase + 1) as usize, count: 0, total_count: (c.total_count + results) as usize }
    } else {
        RouteCursor { cur_phase: c.cur_phase, count: (c.count + 1) as u32, total_count: (c.total_count + results) as usize }
    }
}

/// The inputs on which `padding_due_in` reads inside the table.
pub open spec fn padding_check_ok(counts: Seq<u32>, pads: Seq<Vec<u32>>, c: RouteCursor) -> bool {
    c.cur_phase < counts.len() ==> c.cur_phase < pads.len()
}

fn padding_due_in(count: &Vec<u32>, padding_pos: &Vec<Vec<u32>>, c: &RouteCursor) -> (r: bool)
    requires
        padding_check_ok(count@, padding_pos@, *c),
    ensures
        r == padding_due_at(count@, padding_pos@, *c),
{
    c.cur_phase < count.len() && padding_pos[c.cur_phase].len() > 0 && c.count == padding_pos[c.cur_phase][0]
}

/// The inputs on which forwarding one value of the current phase reads
/// inside the table and does not overflow.
pub open spec fn route_ok(counts: Seq<u32>, maps: Seq<Vec<u8>>, c: RouteCursor, results: int) -> bool {
    &&& c.cur_phase < counts.len()
    &&& c.cur_phase < maps.len()
    &&& 8 * maps[c.cur_phase as int]@.len() <= usize::MAX
    &&& c.count < u32::MAX
    &&& c.total_count + results <= usize::MAX
}

/// The messages that forward `val` at the cursor (see `send_plan`), to the
/// workers named by the current phase's bit field.
pub open spec fn route_plan<T>(maps: Seq<Vec<u8>>, end_pos: Seq<(u16, u8, u32)>, c: RouteCursor, val: T) -> Seq<(usize, Message<T>)> {
    plan_for(set_bit_positions(maps[c.cur_phase as int]@), val, end_pos, c.cur_phase, c.count)
}

fn route_in<T: Copy>(
    count: &Vec<u32>,
    map: &Vec<Vec<u8>>,
    end_pos: &Vec<(u16, u8, u32)>,
    c: &mut RouteCursor,
    val: T,
    results: usize,
) -> (plan: Vec<(usize, Message<T>)>)
    requires
        route_ok(count@, map@, *old(c), results as int),
    ensures
        plan@ == route_plan(map@, end_pos@, *old(c), val),
        *final(c) == advanced(count@, *old(c), results as int),
{
    let phases = count.len();
    let next_mcus = decode_u128(&map[c.cur_phase]);
    let plan = send_plan(&next_mcus, val, end_pos, c.cur_phase, c.count);
    c.count = c.count + 1;
    c.total_count = c.total_count + results;
    if c.count == count[c.cur_phase] {
        c.cur_phase = c.cur_phase + 1;
        c.count = 0;
    }
    plan
}

fn pop_padding(padding_pos: &mut Vec<u32>)
    requires
        old(padding_pos)@.len() > 0,
    ensures
        final(padding_pos)@ == old(padding_pos)@.drop_first(),
{
    padding_pos.remove(0);
    assert(padding_pos@ =~= old(padding_pos)@.drop_first());
}

/// What the coordinator does with a message from the worker it is
/// listening to.
#[derive(Debug, PartialEq)]
pub enum Step<T> {
    /// Send these messages, in order.
    Send(Vec<(usize, Message<T>)>),
    /// Send this message to every worker.
    Broadcast(Message<T>),
    /// The worker has sent all its results; when the flag is set, every
    /// worker is told first that its input is complete.
    Done(bool),
    /// Nothing to do.
    Ignore,
}

/// How the results of the current layer combine with an earlier one: 0 for
/// none, 1 when they are kept (the buffer is cleared first), 2 when they
/// are added to the kept results, 3 when they are added and kept again.
/// Each connection `[from, to]` of `con` that starts at `phase` keeps the
/// results (or, after an addition, keeps the sums); one that ends at
/// `phase` adds.
pub open spec fn residual_flag_after(con: Seq<Vec<i32>>, phase: usize) -> u8
    decreases con.len(),
{
    if con.len() == 0 {
        0
    } else {
        let f = residual_flag_after(con.drop_last(), phase);
        let c = con.last()@;
        if c[0] == (phase as i32) {
            if f == 0 {
                1
            } else if f == 2 {
                3
            } else {
                f
            }
        } else if c[1] == (phase as i32) {
            2
        } else {
            f
        }
    }
}

/// Whether the buffer of kept results is cleared: the flag was set to 1
/// at some point of the walk over `con`.
pub open spec fn residual_clears(con: Seq<Vec<i32>>, phase: usize) -> bool
    decreases con.len(),
{
    if con.len() == 0 {
        false
    } else {
        residual_clears(con.drop_last(), phase) || (con.last()@[0] == (phase as i32) && residual_flag_after(
            con.drop_last(),
            phase,
        ) == 0)
    }
}

/// The residual flag of `phase` (see `residual_flag_after`), and whether
/// the buffer of kept results is cleared on the way.
pub fn residual_flag(con: &Vec<Vec<i32>>, phase: usize) -> (r: (u8, bool))
    requires
        forall|k: int|
            0 <= k < con@.len() ==> (#[trigger] con@[k])@.len() >= 1 && (con@[k]@[0] != (phase as i32) ==> con@[k]@.len()
                >= 2),
    ensures
        r.0 == residual_flag_after(con@, phase),
        r.1 == residual_clears(con@, phase),
{
    let mut flag: u8 = 0;
    let mut cleared = false;
    let p = #[verifier::truncate] (phase as i32);
    let mut k: usize = 0;
    proof {
        assert(con@.take(0) =~= Seq::<Vec<i32>>::empty());
    }
    while k < con.len()
        invariant
            forall|k2: int|
                0 <= k2 < con@.len() ==> (#[trigger] con@[k2])@.len() >= 1 && (con@[k2]@[0] != (phase as i32)
                    ==> con@[k2]@.len() >= 2),
            p == (phase as i32),
            0 <= k <= con@.len(),
            flag == residual_flag_after(con@.take(k as int), phase),
            cleared == residual_clears(con@.take(k as int), phase),
        decreases con@.len() - k,
    {
        proof {
            assert(con@.take(k + 1).drop_last() =~= con@.take(k as int));
        }
        let c = &con[k];
        if c[0] == p {
            if flag == 0 {
                flag = 1;
                cleared = true;
            } else if flag == 2 {
                flag = 3;
            }
        } else if c[1] == p {
            flag = 2;
        }
        k = k + 1;
    }
    proof {
        assert(con@.take(k as int) =~= con@);
    }
    (flag, cleared)
}

/// The coordinator's table for worker `i`.
pub open spec fn table_of(c: Coordinator<QuantizedMapping>, i: int) -> QuantizedMapping {
    c.mapping@[i]
}

impl Coordinator<QuantizedMapping> {
    /// Whether a padding value is due for worker `i` at the cursor (never
    /// when there are no tables).
    pub fn padding_due(&self, i: usize, c: &RouteCursor) -> (r: bool)
        requires
            self.mapping@.len() > 0 ==> i < self.mapping@.len() && padding_check_ok(
                table_of(*self, i as int).count@,
                table_of(*self, i as int).padding_pos@,
                *c,
            ),
        ensures
            r == (self.mapping@.len() > 0 && padding_due_at(
                table_of(*self, i as int).count@,
                table_of(*self, i as int).padding_pos@,
                *c,
            )),
    {
        if self.mapping.len() == 0 {
            return false;
        }
        padding_due_in(&self.mapping[i].count, &self.mapping[i].padding_pos, c)
    }

    /// Forwards the table's zero point in place of a result from worker
    /// `i`, where a padding value is due: the padding position is used up,
    /// and the cursor moves on.
    pub fn send_padding(&mut self, i: usize, c: &mut RouteCursor) -> (plan: Vec<(usize, Message<u8>)>)
        requires
            i < old(self).mapping@.len(),
            padding_check_ok(table_of(*old(self), i as int).count@, table_of(*old(self), i as int).padding_pos@, *old(c)),
            padding_due_at(table_of(*old(self), i as int).count@, table_of(*old(self), i as int).padding_pos@, *old(c)),
            route_ok(table_of(*old(self), i as int).count@, table_of(*old(self), i as int).map@, *old(c), 0),
        ensures
            ({
                let t = table_of(*old(self), i as int);
                let t2 = table_of(*final(self), i as int);
                &&& plan@ == route_plan(t.map@, t.end_pos@, *old(c), t.zero_point)
                &&& *final(c) == advanced(t.count@, *old(c), 0)
                &&& final(self).mapping@.len() == old(self).mapping@.len()
                &&& forall|k: int| 0 <= k < old(self).mapping@.len() && k != i ==> #[trigger] final(self).mapping@[k]
                    == old(self).mapping@[k]
                &&& t2.count == t.count
                &&& t2.map == t.map
                &&& t2.end_pos == t.end_pos
                &&& t2.zero_point == t.zero_point
                &&& t2.padding_pos@.len() == t.padding_pos@.len()
                &&& t2.padding_pos@[old(c).cur_phase as int]@ == t.padding_pos@[old(c).cur_phase as int]@.drop_first()
                &&& forall|p: int| 0 <= p < t.padding_pos@.len() && p != old(c).cur_phase ==> #[trigger] t2.padding_pos@[p]
                    == t.padding_pos@[p]
            }),
    {
        let zero = self.mapping[i].zero_point;
        let phase = c.cur_phase;
        let plan = route_in(&self.mapping[i].count, &self.mapping[i].map, &self.mapping[i].end_pos, c, zero, 0);
        pop_padding(&mut self.mapping[i].padding_pos[phase]);
        plan
    }

    /// What to do with message `msg` from worker `i`, the last of
    /// `worker_swarm_size` workers being `worker_swarm_size - 1`: a result
    /// is forwarded by the worker's table (to every worker when there are
    /// no tables) and moves the cursor on by one result; the end of the
    /// results finishes the worker; anything else is ignored.
    pub fn on_message<T: Copy>(&self, i: usize, c: &mut RouteCursor, msg: Message<T>, worker_swarm_size: u8) -> (step: Step<T>)
        requires
            i < worker_swarm_size,
            msg matches Message::Result(Some(_)) && self.mapping@.len() > 0 ==> {
                &&& i < self.mapping@.len()
                &&& route_ok(table_of(*self, i as int).count@, table_of(*self, i as int).map@, *old(c), 1)
            },
        ensures
            match msg {
                Message::Result(Some(d)) => if self.mapping@.len() == 0 {
                    &&& step == Step::Broadcast(Message::Work(Some(d)))
                    &&& *final(c) == *old(c)
                } else {
                    let t = table_of(*self, i as int);
                    &&& step matches Step::Send(plan) && plan@ == route_plan(t.map@, t.end_pos@, *old(c), d)
                    &&& *final(c) == advanced(t.count@, *old(c), 1)
                },
                Message::Result(None) => {
                    &&& step == Step::<T>::Done(self.mapping@.len() == 0 && i == worker_swarm_size - 1)
                    &&& *final(c) == *old(c)
                },
                _ => {
                    &&& step == Step::<T>::Ignore
                    &&& *final(c) == *old(c)
                },
            },
    {
        match msg {
            Message::Result(Some(d)) => {
                if self.mapping.len() == 0 {
                    Step::Broadcast(Message::Work(Some(d)))
                } else {
                    Step::Send(route_in(&self.mapping[i].count, &self.mapping[i].map, &self.mapping[i].end_pos, c, d, 1))
                }
            },
            Message::Result(None) => Step::Done(self.mapping.len() == 0 && i as u8 == worker_swarm_size - 1),
            _ => Step::Ignore,
        }
    }
}

/// The coordinator's table for worker `i`.
pub open spec fn plain_table_of(c: Coordinator<Mapping>, i: int) -> Mapping {
    c.mapping@[i]
}

impl Coordinator<Mapping> {
    /// Whether a padding value is due for worker `i` at the cursor (never
    /// when there are no tables).
    pub fn padding_due(&self, i: usize, c: &RouteCursor) -> (r: bool)
        requires
            self.mapping@.len() > 0 ==> i < self.mapping@.len() && padding_check_ok(
                plain_table_of(*self, i as int).count@,
                plain_table_of(*self, i as int).padding_pos@,
                *c,
            ),
        ensures
            r == (self.mapping@.len() > 0 && padding_due_at(
                plain_table_of(*self, i as int).count@,
                plain_table_of(*self, i as int).padding_pos@,
                *c,
            )),
    {
        if self.mapping.len() == 0 {
            return false;
        }
        padding_due_in(&self.mapping[i].count, &self.mapping[i].padding_pos, c)
    }

    /// Forwards `zero` in place of a result from worker `i`, where a padding
    /// value is due: the padding position is used up, and the cursor moves
    /// on.
    pub fn send_padding<T: Copy>(&mut self, i: usize, c: &mut RouteCursor, zero: T) -> (plan: Vec<(usize, Message<T>)>)
        requires
            i < old(self).mapping@.len(),
            padding_check_ok(plain_table_of(*old(self), i as int).count@, plain_table_of(*old(self), i as int).padding_pos@, *old(c)),
            padding_due_at(plain_table_of(*old(self), i as int).count@, plain_table_of(*old(self), i as int).padding_pos@, *old(c)),
            route_ok(plain_table_of(*old(self), i as int).count@, plain_table_of(*old(self), i as int).map@, *old(c), 0),
        ensures
            ({
                let t = plain_table_of(*old(self), i as int);
                let t2 = plain_table_of(*final(self), i as int);
                &&& plan@ == route_plan(t.map@, t.end_pos@, *old(c), zero)
                &&& *final(c) == advanced(t.count@, *old(c), 0)
                &&& final(self).mapping@.len() == old(self).mapping@.len()
                &&& forall|k: int| 0 <= k < old(self).mapping@.len() && k != i ==> #[trigger] final(self).mapping@[k]
                    == old(self).mapping@[k]
                &&& t2.count == t.count
                &&& t2.map == t.map
                &&& t2.end_pos == t.end_pos
                &&& t2.padding_pos@.len() == t.padding_pos@.len()
                &&& t2.padding_pos@[old(c).cur_phase as int]@ == t.padding_pos@[old(c).cur_phase as int]@.drop_first()
                &&& forall|p: int| 0 <= p < t.padding_pos@.len() && p != old(c).cur_phase ==> #[trigger] t2.padding_pos@[p]
                    == t.padding_pos@[p]
            }),
    {
        let phase = c.cur_phase;
        let plan = route_in(&self.mapping[i].count, &self.mapping[i].map, &self.mapping[i].end_pos, c, zero, 0);
        pop_padding(&mut self.mapping[i].padding_pos[phase]);
        plan
    }

    /// What to do with message `msg` from worker `i` (see the quantized
    /// coordinator's `on_message`).
    pub fn on_message<T: Copy>(&self, i: usize, c: &mut RouteCursor, msg: Message<T>, worker_swarm_size: u8) -> (step: Step<T>)
        requires
            i < worker_swarm_size,
            msg matches Message::Result(Some(_)) && self.mapping@.len() > 0 ==> {
                &&& i < self.mapping@.len()
                &&& route_ok(plain_table_of(*self, i as int).count@, plain_table_of(*self, i as int).map@, *old(c), 1)
            },
        ensures
            match msg {
                Message::Result(Some(d)) => if self.mapping@.len() == 0 {
                    &&& step == Step::Broadcast(Message::Work(Some(d)))
                    &&& *final(c) == *old(c)
                } else {
                    let t = plain_table_of(*self, i as int);
                    &&& step matches Step::Send(plan) && plan@ == route_plan(t.map@, t.end_pos@, *old(c), d)
                    &&& *final(c) == advanced(t.count@, *old(c), 1)
                },
                Message::Result(None) => {
                    &&& step == Step::<T>::Done(self.mapping@.len() == 0 && i == worker_swarm_size - 1)
                    &&& *final(c) == *old(c)
                },
                _ => {
                    &&& step == Step::<T>::Ignore
                    &&& *final(c) == *old(c)
                },
            },
    {
        match msg {
            Message::Result(Some(d)) => {
                if self.mapping.len() == 0 {
                    Step::Broadcast(Message::Work(Some(d)))
                } else {
                    Step::Send(route_in(&self.mapping[i].count, &self.mapping[i].map, &self.mapping[i].end_pos, c, d, 1))
                }
            },
            Message::Result(None) => Step::Done(self.mapping.len() == 0 && i as u8 == worker_swarm_size - 1),
            _ => Step::Ignore,
        }
    }
}

/// Sum of the `w` values of `s` from position `start`.
pub open spec fn window_sum(s: Seq<u8>, start: int, w: int) -> int
    decreases w,
{
    if w <= 0 {
        0
    } else {
        window_sum(s, start, w - 1) + s[start + w - 1]
    }
}

/// The windows that adaptive pooling averages over `len` inputs: window `k`
/// covers inputs `k * w .. (k + 1) * w` with `w = len / 1280`, for the
/// 1280 outputs. The pooling of floating-point inputs averages each one.
pub fn pooling_windows(len: usize) -> (windows: Vec<(usize, usize)>)
    requires
        len >= 1280,
        len % 1280 == 0,
    ensures
        windows@.len() == 1280,
        forall|k: int|
            0 <= k < 1280 ==> #[trigger] windows@[k] == ((k * pooling_width(len as int)) as usize, ((k + 1)
                * pooling_width(len as int)) as usize),
{
    let w = len / 1280;
    let mut windows: Vec<(usize, usize)> = Vec::new();
    let mut k: usize = 0;
    while k < 1280
        invariant
            w == pooling_width(len as int),
            len >= 1280,
            len % 1280 == 0,
            0 <= k <= 1280,
            windows@.len() == k,
            forall|i: int|
                0 <= i < k ==> #[trigger] windows@[i] == ((i * w) as usize, ((i + 1) * w) as usize),
        decreases 1280 - k,
    {
        assert((k + 1) * w <= 1280 * w && 1280 * w == len && k * w <= (k + 1) * w) by (nonlinear_arith)
            requires
                k < 1280,
                w == len / 1280,
                len % 1280 == 0,
                w >= 0,
        ;
        windows.push((k * w, (k + 1) * w));
        k = k + 1;
    }
    windows
}

/// Width of the pooling windows: the number of inputs over 1280.
pub open spec fn pooling_width(len: int) -> int {
    len / 1280
}

/// The inputs on which `adaptive_pooling_q` neither panics nor overflows:
/// the inputs split into exactly 1280 windows, each window's sum fits a
/// `u16`, and the width read as `u16` is not zero.
pub open spec fn pooling_q_ok(inputs: Seq<u8>) -> bool {
    let w = pooling_width(inputs.len() as int);
    &&& inputs.len() >= 1280
    &&& inputs.len() % 1280 == 0
    &&& (w as u16) != 0
    &&& forall|k: int| 0 <= k < 1280 ==> #[trigger] window_sum(inputs, k * w, w) <= u16::MAX
}

/// The average of window `k`: its sum divided by the width read as `u16`,
/// read as `u8`.
pub open spec fn window_average(inputs: Seq<u8>, k: int) -> u8 {
    let w = pooling_width(inputs.len() as int);
    (window_sum(inputs, k * w, w) / ((w as u16) as int)) as u8
}

proof fn lemma_window_in_range(k: int, w: int, j: int)
    requires
        0 <= k < 1280,
        0 <= j < w,
    ensures
        0 <= k * w + j < 1280 * w,
        k * w + w <= 1280 * w,
        (k + 1) * w == k * w + w,
{
    assert(0 <= k * w + j < 1280 * w && k * w + w <= 1280 * w && (k + 1) * w == k * w + w) by (nonlinear_arith)
        requires
            0 <= k < 1280,
            0 <= j < w,
    ;
}

impl<T> Worker<T, u8> {
    /// Pools the inputs down to 1280 values: window `k` of `len / 1280`
    /// consecutive inputs becomes their average (`window_average`).
    pub fn adaptive_pooling_q(&mut self)
        requires
            pooling_q_ok(old(self).inputs@),
        ensures
            final(self).inputs@.len() == 1280,
            forall|k: int| 0 <= k < 1280 ==> #[trigger] final(self).inputs@[k] == window_average(old(self).inputs@, k),
            final(self).weights == old(self).weights,
            final(self).status == old(self).status,
            final(self).operations == old(self).operations,
    {
        let ghost inp = self.inputs@;
        let len = self.inputs.len();
        let window_size = len / 1280;
        let divisor = #[verifier::truncate] (window_size as u16);
        let mut result: Vec<u8> = Vec::new();
        let mut k: usize = 0;
        while k < 1280
            invariant
                pooling_q_ok(inp),
                inp == self.inputs@,
                len == inp.len(),
                window_size == pooling_width(len as int),
                divisor == (window_size as u16),
                0 <= k <= 1280,
                result@.len() == k,
                forall|k2: int| 0 <= k2 < k ==> #[trigger] result@[k2] == window_average(inp, k2),
            decreases 1280 - k,
        {
            let ghost kk = k as int;
            assert(window_sum(inp, kk * window_size, window_size as int) <= u16::MAX);
            proof {
                lemma_window_in_range(kk, window_size as int, 0);
                assert(len == 1280 * window_size);
            }
            let start = k * window_size;
            let mut sum: u16 = 0;
            let mut j: usize = 0;
            while j < window_size
                invariant
                    pooling_q_ok(inp),
                    inp == self.inputs@,
                    len == inp.len(),
                    len == 1280 * window_size,
                    window_size == pooling_width(len as int),
                    0 <= kk < 1280,
                    start == kk * window_size,
                    0 <= j <= window_size,
                    sum == window_sum(inp, start as int, j as int),
                    window_sum(inp, start as int, window_size as int) <= u16::MAX,
                decreases window_size - j,
            {
                proof {
                    lemma_window_in_range(kk, window_size as int, j as int);
                    lemma_window_sum_mono(inp, start as int, j + 1, window_size as int);
                }
                sum = sum + self.inputs[start + j] as u16;
                j = j + 1;
            }
            let avg = sum / divisor;
            result.push(#[verifier::truncate] (avg as u8));
            k = k + 1;
        }
        self.inputs = result;
    }
}

proof fn lemma_window_sum_mono(s: Seq<u8>, start: int, a: int, b: int)
    requires
        0 <= a <= b,
    ensures
        window_sum(s, start, a) <= window_sum(s, start, b),
    decreases b - a,
{
    if a < b {
        lemma_window_sum_mono(s, start, a, b - 1);
    }
}

impl<T, U> Worker<T, U> {
    /// Takes one message while receiving inputs: an input value is kept,
    /// the end of the inputs ends the receiving, and the order to stop ends
    /// it and sets `status`; anything else is ignored. Returns whether the
    /// receiving is over.
    pub fn take_message(&mut self, msg: Message<U>) -> (done: bool)
        ensures
            final(self).weights == old(self).weights,
            final(self).operations == old(self).operations,
            match msg {
                Message::Work(Some(d)) => {
                    &&& !done
                    &&& final(self).inputs@ == old(self).inputs@.push(d)
                    &&& final(self).status == old(self).status
                },
                Message::Work(None) => {
                    &&& done
                    &&& final(self).inputs@ == old(self).inputs@
                    &&& final(self).status == old(self).status
                },
                Message::Quit => {
                    &&& done
                    &&& final(self).inputs@ == old(self).inputs@
                    &&& final(self).status
                },
                _ => {
                    &&& !done
                    &&& final(self).inputs@ == old(self).inputs@
                    &&& final(self).status == old(self).status
                },
            },
    {
        match msg {
            Message::Work(Some(d)) => {
                self.inputs.push(d);
                false
            },
            Message::Work(None) => true,
            Message::Quit => {
                self.status = true;
                true
            },
            _ => false,
        }
    }
}

/// Takes one message while a worker waits for the signal to send its
/// results: input values that arrive meanwhile are kept in `buffer`, and the
/// signal ends the waiting. Returns whether the signal came.
pub fn buffer_until_signal<T>(buffer: &mut Vec<T>, msg: Message<T>) -> (started: bool)
    ensures
        match msg {
            Message::StartTransmission => started && final(buffer)@ == old(buffer)@,
            Message::Work(Some(d)) => !started && final(buffer)@ == old(buffer)@.push(d),
            _ => !started && final(buffer)@ == old(buffer)@,
        },
{
    match msg {
        Message::StartTransmission => true,
        Message::Work(Some(d)) => {
            buffer.push(d);
            false
        },
        _ => false,
    }
}

/// Takes one message while the coordinator collects a worker's final
/// results: a result is kept, and the end of the results ends the
/// collecting. Returns whether the collecting is over.
pub fn collect_result<T>(results: &mut Vec<T>, msg: Message<T>) -> (done: bool)
    ensures
        match msg {
            Message::Result(Some(d)) => !done && final(results)@ == old(results)@.push(d),
            Message::Result(None) => done && final(results)@ == old(results)@,
            _ => !done && final(results)@ == old(results)@,
        },
{
    match msg {
        Message::Result(Some(d)) => {
            results.push(d);
            false
        },
        Message::Result(None) => true,
        _ => false,
    }
}

/// Whether the worker applies ReLU6 to its results (operation 1).
pub open spec fn applies_relu(operations: Seq<u8>) -> bool {
    operations.contains(1u8)
}

/// Applies the worker's quantized ReLU6, when its operations hold it: each
/// result is clamped to `0..=max`.
pub fn clamp_results_q(operations: &Vec<u8>, result: &mut Vec<u8>, max: u8)
    ensures
        final(result)@.len() == old(result)@.len(),
        forall|i: int|
            0 <= i < old(result)@.len() ==> #[trigger] final(result)@[i] == if applies_relu(operations@)
                && old(result)@[i] > max {
                max
            } else {
                old(result)@[i]
            },
{
    let mut has_relu = false;
    let mut k: usize = 0;
    while k < operations.len()
        invariant
            0 <= k <= operations@.len(),
            has_relu == operations@.take(k as int).contains(1u8),
        decreases operations@.len() - k,
    {
        let ghost s0 = operations@.take(k as int);
        let ghost s1 = operations@.take(k + 1);
        proof {
            assert(s1 =~= s0.push(operations@[k as int]));
            if s1.contains(1u8) && operations@[k as int] != 1u8 {
                let j = choose|j: int| 0 <= j < s1.len() && s1[j] == 1u8;
                assert(s0[j] == 1u8);
            }
            if s0.contains(1u8) {
                let j = choose|j: int| 0 <= j < s0.len() && s0[j] == 1u8;
                assert(s1[j] == 1u8);
            }
            if operations@[k as int] == 1u8 {
                assert(s1[k as int] == 1u8);
            }
        }
        if operations[k] == 1 {
            has_relu = true;
        }
        k = k + 1;
    }
    proof {
        assert(operations@.take(k as int) =~= operations@);
    }
    if has_relu {
        let mut i: usize = 0;
        while i < result.len()
            invariant
                0 <= i <= result@.len(),
                result@.len() == old(result)@.len(),
                forall|j: int| 0 <= j < i ==> #[trigger] result@[j] == if old(result)@[j] > max {
                    max
                } else {
                    old(result)@[j]
                },
                forall|j: int| i <= j < result@.len() ==> #[trigger] result@[j] == old(result)@[j],
            decreases result@.len() - i,
        {
            if result[i] > max {
                result.set(i, max);
            }
            i = i + 1;
        }
    }
}


/// The total of a run of bytes.
pub open spec fn byte_total(s: Seq<u8>) -> int {
    s.fold_left(0int, |acc: int, x: u8| acc + x)
}

proof fn lemma_window_sum_is_total(s: Seq<u8>, start: int, n: int)
    requires
        0 <= start,
        0 <= n,
        start + n <= s.len(),
    ensures
        window_sum(s, start, n) == byte_total(s.subrange(start, start + n)),
        0 <= window_sum(s, start, n) <= 255 * n,
    decreases n,
{
    let sub = s.subrange(start, start + n);
    if n == 0 {
        assert(sub.len() == 0);
    } else {
        lemma_window_sum_is_total(s, start, n - 1);
        assert(sub.drop_last() =~= s.subrange(start, start + n - 1));
        assert(sub.last() == s[start + n - 1]);
    }
}

proof fn lemma_constant_window(s: Seq<u8>, start: int, n: int, v: u8)
    requires
        0 <= start,
        0 <= n,
        start + n <= s.len(),
        forall|j: int| start <= j < start + n ==> s[j] == v,
    ensures
        window_sum(s, start, n) == v * n,
    decreases n,
{
    if n > 0 {
        lemma_constant_window(s, start, n - 1, v);
        assert(s[start + n - 1] == v);
        assert(v * (n - 1) + v == v * n) by (nonlinear_arith);
    } else {
        assert(v * n == 0) by (nonlinear_arith)
            requires
                n == 0,
        ;
    }
}

/// Output `k` of the pooling is the average of window `k`: the total of the
/// `w` inputs `k * w .. (k + 1) * w` (with `w` the number of inputs over
/// 1280) divided by `w`, rounded down; so a window whose inputs all equal
/// `v` gives `v`.
pub proof fn lemma_pooling_averages_windows(inputs: Seq<u8>, k: int, v: u8)
    requires
        inputs.len() >= 1280,
        inputs.len() % 1280 == 0,
        inputs.len() <= 1280 * 65535,
        0 <= k < 1280,
    ensures
        window_average(inputs, k) as int == byte_total(
            inputs.subrange(k * (inputs.len() / 1280) as int, (k + 1) * (inputs.len() / 1280) as int),
        ) / (inputs.len() / 1280) as int,
        (forall|j: int|
            k * (inputs.len() / 1280) as int <= j < (k + 1) * (inputs.len() / 1280) as int ==> inputs[j] == v)
            ==> window_average(inputs, k) == v,
{
    let w = (inputs.len() / 1280) as int;
    assert(1 <= w <= 65535);
    assert(0 <= k * w && k * w + w == (k + 1) * w && (k + 1) * w <= 1280 * w && 1280 * w == inputs.len()) by (nonlinear_arith)
        requires
            0 <= k < 1280,
            w == inputs.len() / 1280,
            inputs.len() % 1280 == 0,
            w >= 1,
    ;
    lemma_window_sum_is_total(inputs, k * w, w);
    assert((w as u16) as int == w);
    let t = window_sum(inputs, k * w, w);
    assert(t / w <= 255) by (nonlinear_arith)
        requires
            0 <= t <= 255 * w,
            w >= 1,
    ;
    assert(t / w >= 0) by (nonlinear_arith)
        requires
            0 <= t,
            w >= 1,
    ;
    if forall|j: int| k * w <= j < (k + 1) * w ==> inputs[j] == v {
        lemma_constant_window(inputs, k * w, w, v);
        assert((v * w) / w == v as int) by (nonlinear_arith)
            requires
                w >= 1,
        ;
    }
}

} // verus!
