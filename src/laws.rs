use vstd::prelude::*;

use crate::modbus::{
    flatten, is_segmentation, run, segments_bounded, covered, spec_ok_cell, Cell, CellErr, RangeRead, RegType, Resolver, ILLEGAL_DATA_ADDRESS,
};

verus! {

/// A timeout on one range leaves the connection usable, and changes no cell outside
/// that range.
pub proof fn lemma_timeout_isolated(r: &Resolver, after: &Resolver)
    requires
        r.wf(),
        r.pending().len() > 0,
        r.fed(RangeRead::Timeout, after),
    ensures
        !after.is_offline(),
        after.pending() == r.pending().drop_last(),
        forall|i: int|
            0 <= i < r.qty() && !(r.pending().last().2 <= i < r.pending().last().2
                + r.pending().last().1) ==> after.cells()[i] == r.cells()[i],
        forall|i: int|
            r.pending().last().2 <= i < r.pending().last().2 + r.pending().last().1
                ==> after.cells()[i] == Cell::Failure(CellErr::Timeout),
{
}

/// A value cell of a bit kind carries `raw != 0`; one of a register kind carries no boolean.
pub proof fn lemma_bool_derivation(ty: RegType, raw: u16)
    ensures
        ty.is_bit() ==> spec_ok_cell(ty, raw) == (Cell::Value { raw, bool: Some(raw != 0) }),
        !ty.is_bit() ==> spec_ok_cell(ty, raw) == (Cell::Value { raw, bool: None }),
{
}

/// The same outcome fed to the same state gives the same state: what a read returns
/// is passed on as it is, with nothing kept from earlier reads.
pub proof fn lemma_feed_deterministic(r: &Resolver, read: RangeRead, a: &Resolver, b: &Resolver)
    requires
        r.wf(),
        r.pending().len() > 0,
        r.fed(read, a),
        r.fed(read, b),
    ensures
        a.cells() == b.cells(),
        a.pending() == b.pending(),
        a.is_offline() == b.is_offline(),
{
}

/// The cell a device yields for address `a`: `NotAvailable` where it refuses the
/// address (`bad`), else the value it holds there (`val`).
pub open spec fn expected(ty: RegType, a: u16, bad: spec_fn(u16) -> bool, val: spec_fn(u16) -> u16) -> Cell {
    if bad(a) {
        Cell::Failure(CellErr::NotAvailable)
    } else {
        spec_ok_cell(ty, val(a))
    }
}

/// `read` is what such a device answers to a read of `q` addresses from `s`: an
/// illegal data address exception when the range holds a refused address, else
/// the values.
pub open spec fn answers(
    read: RangeRead,
    s: u16,
    q: u16,
    bad: spec_fn(u16) -> bool,
    val: spec_fn(u16) -> u16,
) -> bool {
    if exists|j: int| 0 <= j < q && #[trigger] bad((s + j) as u16) {
        read == RangeRead::Exception(ILLEGAL_DATA_ADDRESS)
    } else {
        &&& read is Values
        &&& read->Values_0@ == Seq::new(q as nat, |j: int| val((s + j) as u16))
    }
}

/// Every cell outside the pending ranges already holds what the device yields.
pub open spec fn resolved_right(r: &Resolver, bad: spec_fn(u16) -> bool, val: spec_fn(u16) -> u16) -> bool {
    forall|i: int|
        0 <= i < r.qty() ==> covered(r.pending(), i) || #[trigger] r.cells()[i] == expected(
            r.kind(),
            (r.start() + i) as u16,
            bad,
            val,
        )
}

proof fn lemma_covered_push(items: Seq<(u16, u16, usize)>, x: (u16, u16, usize), i: int)
    ensures
        covered(items.push(x), i) == (covered(items, i) || (x.2 <= i < x.2 + x.1)),
    decreases items.len(),
{
    if items.len() > 0 {
        assert(items.push(x).drop_first() =~= items.drop_first().push(x));
        lemma_covered_push(items.drop_first(), x, i);
        assert(items.push(x)[0] == items[0]);
    } else {
        assert(items.push(x).drop_first() =~= items);
        assert(items.push(x)[0] == x);
    }
}

/// A fresh resolver has every cell pending, so nothing it holds is wrong yet.
pub proof fn lemma_bisection_start(r: &Resolver, bad: spec_fn(u16) -> bool, val: spec_fn(u16) -> u16)
    requires
        r.wf(),
        r.pending() == seq![(r.start(), r.qty(), 0usize)],
    ensures
        resolved_right(r, bad, val),
{
    assert forall|i: int| 0 <= i < r.qty() implies covered(r.pending(), i) by {
        assert(r.pending()[0] == (r.start(), r.qty(), 0usize));
    }
}

/// Against a device that refuses some addresses and answers the rest, each read
/// keeps every resolved cell right; when nothing is pending, each refused address
/// is `NotAvailable` and every other one holds its value.
pub proof fn lemma_bisection_step(
    r: &Resolver,
    read: RangeRead,
    after: &Resolver,
    bad: spec_fn(u16) -> bool,
    val: spec_fn(u16) -> u16,
)
    requires
        r.wf(),
        r.pending().len() > 0,
        answers(read, r.pending().last().0, r.pending().last().1, bad, val),
        r.fed(read, after),
        resolved_right(r, bad, val),
    ensures
        resolved_right(after, bad, val),
        after.pending().len() == 0 ==> forall|i: int|
            0 <= i < after.qty() ==> #[trigger] after.cells()[i] == expected(
                after.kind(),
                (after.start() + i) as u16,
                bad,
                val,
            ),
{
    let it = r.pending().last();
    let rest = r.pending().drop_last();
    assert(r.pending() =~= rest.push(it));
    assert(r.item_ok(r.pending()[r.pending().len() - 1]));
    assert forall|i: int| 0 <= i < after.qty() implies covered(after.pending(), i)
        || #[trigger] after.cells()[i] == expected(after.kind(), (after.start() + i) as u16, bad, val) by {
        lemma_covered_push(rest, it, i);
        let inside = it.2 <= i < it.2 + it.1;
        if exists|j: int| 0 <= j < it.1 && #[trigger] bad((it.0 + j) as u16) {
            let j = choose|j: int| 0 <= j < it.1 && #[trigger] bad((it.0 + j) as u16);
            if it.1 == 1 {
                if inside {
                    assert(i == it.2 && j == 0);
                }
            } else {
                let l = (it.0, it.1 / 2, it.2);
                let rr = ((it.0 + it.1 / 2) as u16, (it.1 - it.1 / 2) as u16, (it.2 + it.1 / 2) as usize);
                lemma_covered_push(rest, rr, i);
                lemma_covered_push(rest.push(rr), l, i);
            }
        } else {
            if inside {
                assert(!bad((it.0 + (i - it.2)) as u16));
            }
        }
    }
    if after.pending().len() == 0 {
        assert forall|i: int| 0 <= i < after.qty() implies #[trigger] after.cells()[i] == expected(
            after.kind(),
            (after.start() + i) as u16,
            bad,
            val,
        ) by {
            assert(!covered(after.pending(), i));
        }
    }
}

/// Reads still owed for the pending ranges: a range of `q` addresses takes at most
/// `2 * q - 1` reads to resolve.
pub open spec fn work(items: Seq<(u16, u16, usize)>) -> int
    decreases items.len(),
{
    if items.len() == 0 {
        0
    } else {
        work(items.drop_last()) + 2 * items.last().1 - 1
    }
}

proof fn lemma_work_nonneg(items: Seq<(u16, u16, usize)>)
    requires
        forall|k: int| 0 <= k < items.len() ==> (#[trigger] items[k]).1 >= 1,
    ensures
        work(items) >= items.len(),
    decreases items.len(),
{
    if items.len() > 0 {
        let d = items.drop_last();
        assert forall|k: int| 0 <= k < d.len() implies (#[trigger] d[k]).1 >= 1 by {
            assert(d[k] == items[k]);
        }
        lemma_work_nonneg(d);
    }
}

/// A fresh segment of `qty` addresses owes at most `2 * qty - 1` reads, and each read
/// fed to the resolver lowers what is owed by at least one: a segment is resolved in
/// at most `2 * qty - 1` reads, whatever the device answers.
pub proof fn lemma_bisection_bound(r: &Resolver, read: RangeRead, after: &Resolver)
    requires
        r.wf(),
        r.pending().len() > 0,
        r.fed(read, after),
    ensures
        work(after.pending()) < work(r.pending()),
        work(after.pending()) >= 0,
        r.pending() == seq![(r.start(), r.qty(), 0usize)] ==> work(r.pending()) == 2 * r.qty() - 1,
{
    let it = r.pending().last();
    let rest = r.pending().drop_last();
    assert(r.item_ok(r.pending()[r.pending().len() - 1]));
    assert forall|k: int| 0 <= k < after.pending().len() implies (#[trigger] after.pending()[k]).1 >= 1 by {
        assert(after.item_ok(after.pending()[k]));
    }
    lemma_work_nonneg(after.pending());
    assert forall|k: int| 0 <= k < rest.len() implies (#[trigger] rest[k]).1 >= 1 by {
        assert(r.item_ok(r.pending()[k]));
    }
    lemma_work_nonneg(rest);
    assert(work(r.pending()) == work(rest) + 2 * it.1 - 1);
    if read == RangeRead::Exception(ILLEGAL_DATA_ADDRESS) && it.1 > 1 {
        let rr = ((it.0 + it.1 / 2) as u16, (it.1 - it.1 / 2) as u16, (it.2 + it.1 / 2) as usize);
        let l = (it.0, it.1 / 2, it.2);
        assert(after.pending() == rest.push(rr).push(l));
        assert(rest.push(rr).push(l).drop_last() =~= rest.push(rr));
        assert(rest.push(rr).drop_last() =~= rest);
        assert(work(rest.push(rr)) == work(rest) + 2 * rr.1 - 1);
        assert(work(after.pending()) == work(rest.push(rr)) + 2 * l.1 - 1);
    }
    if r.pending() == seq![(r.start(), r.qty(), 0usize)] {
        assert(r.pending().drop_last() =~= Seq::<(u16, u16, usize)>::empty());
    }
}

proof fn lemma_flatten_front(segs: Seq<(u16, u16)>)
    requires
        segs.len() > 0,
    ensures
        flatten(segs) == run(segs[0].0, segs[0].1) + flatten(segs.drop_first()),
    decreases segs.len(),
{
    if segs.len() == 1 {
        assert(segs.drop_last() =~= Seq::<(u16, u16)>::empty());
        assert(segs.drop_first() =~= Seq::<(u16, u16)>::empty());
        assert(flatten(segs) =~= run(segs[0].0, segs[0].1) + flatten(segs.drop_first()));
    } else {
        lemma_flatten_front(segs.drop_last());
        assert(segs.drop_first().drop_last() =~= segs.drop_last().drop_first());
        assert(segs.drop_last()[0] == segs[0]);
        assert(segs.drop_first().last() == segs.last());
        assert(flatten(segs) =~= run(segs[0].0, segs[0].1) + flatten(segs.drop_first()));
    }
}

/// A list of addresses has one segmentation under a given cap: the plan of a poll
/// cycle is fixed by its requests.
pub proof fn lemma_segmentation_unique(addrs: Seq<u16>, cap: u16, a: Seq<(u16, u16)>, b: Seq<(u16, u16)>)
    requires
        is_segmentation(addrs, cap, a),
        is_segmentation(addrs, cap, b),
    ensures
        a == b,
    decreases addrs.len(),
{
    if a.len() == 0 || b.len() == 0 {
        if a.len() > 0 {
            lemma_flatten_front(a);
            assert(segments_bounded(a, cap) && a[0].1 >= 1);
            assert(flatten(a).len() > 0);
        }
        if b.len() > 0 {
            lemma_flatten_front(b);
            assert(b[0].1 >= 1);
            assert(flatten(b).len() > 0);
        }
        assert(a =~= b);
    } else {
        lemma_flatten_front(a);
        lemma_flatten_front(b);
        let (sa, qa) = a[0];
        let (sb, qb) = b[0];
        assert(1 <= qa <= cap && sa + qa <= 0x10000);
        assert(1 <= qb <= cap && sb + qb <= 0x10000);
        let ra = run(sa, qa);
        let rb = run(sb, qb);
        assert(addrs[0] == ra[0] && addrs[0] == rb[0]);
        if qa < qb {
            assert(addrs[qa as int] == rb[qa as int]);
            assert(addrs.len() > qa);
            if a.len() == 1 {
                assert(a.drop_first() =~= Seq::<(u16, u16)>::empty());
            }
            assert(a.len() > 1);
            lemma_flatten_front(a.drop_first());
            assert(a.drop_first()[0] == a[1]);
            assert(addrs[qa as int] == run(a[1].0, a[1].1)[0]);
            assert(a[0].1 == cap || a[0].0 + a[0].1 != a[1].0);
        } else if qb < qa {
            assert(addrs[qb as int] == ra[qb as int]);
            assert(addrs.len() > qb);
            if b.len() == 1 {
                assert(b.drop_first() =~= Seq::<(u16, u16)>::empty());
            }
            assert(b.len() > 1);
            lemma_flatten_front(b.drop_first());
            assert(b.drop_first()[0] == b[1]);
            assert(addrs[qb as int] == run(b[1].0, b[1].1)[0]);
            assert(b[0].1 == cap || b[0].0 + b[0].1 != b[1].0);
        }
        assert(qa == qb);
        let rest = addrs.subrange(qa as int, addrs.len() as int);
        assert(flatten(a.drop_first()) =~= rest);
        assert(flatten(b.drop_first()) =~= rest);
        assert forall|k: int| 0 <= k < a.drop_first().len() - 1 implies #[trigger] a.drop_first()[k].1 == cap
            || a.drop_first()[k].0 + a.drop_first()[k].1 != a.drop_first()[k + 1].0 by {
            assert(a.drop_first()[k] == a[k + 1] && a.drop_first()[k + 1] == a[k + 2]);
        }
        assert forall|k: int| 0 <= k < b.drop_first().len() - 1 implies #[trigger] b.drop_first()[k].1 == cap
            || b.drop_first()[k].0 + b.drop_first()[k].1 != b.drop_first()[k + 1].0 by {
            assert(b.drop_first()[k] == b[k + 1] && b.drop_first()[k + 1] == b[k + 2]);
        }
        assert forall|k: int| 0 <= k < a.drop_first().len() implies 1 <= #[trigger] a.drop_first()[k].1 <= cap
            && a.drop_first()[k].0 + a.drop_first()[k].1 <= 0x10000 by {
            assert(a.drop_first()[k] == a[k + 1]);
        }
        assert forall|k: int| 0 <= k < b.drop_first().len() implies 1 <= #[trigger] b.drop_first()[k].1 <= cap
            && b.drop_first()[k].0 + b.drop_first()[k].1 <= 0x10000 by {
            assert(b.drop_first()[k] == b[k + 1]);
        }
        lemma_segmentation_unique(rest, cap, a.drop_first(), b.drop_first());
        assert(a =~= seq![a[0]] + a.drop_first());
        assert(b =~= seq![b[0]] + b.drop_first());
    }
}

/// The ceiling of the base-2 logarithm of `q`.
pub open spec fn clog2(q: int) -> nat
    decreases q,
{
    if q <= 1 {
        0
    } else {
        1 + clog2((q + 1) / 2)
    }
}

proof fn lemma_clog2_mono(p: int, q: int)
    requires
        p <= q,
    ensures
        clog2(p) <= clog2(q),
    decreases q,
{
    if p > 1 {
        lemma_clog2_mono((p + 1) / 2, (q + 1) / 2);
    }
}

/// Reads still owed when only address `bad` is refused: a range holding it owes
/// `1 + 2 * clog2(q)`, any other range one read.
pub open spec fn owed_one(items: Seq<(u16, u16, usize)>, bad: int) -> int
    decreases items.len(),
{
    if items.len() == 0 {
        0
    } else {
        let it = items.last();
        owed_one(items.drop_last(), bad) + if it.0 <= bad < it.0 + it.1 {
            1 + 2 * clog2(it.1 as int)
        } else {
            1
        }
    }
}

/// With a single refused address, a fresh segment of `qty` addresses owes at most
/// `1 + 2 * clog2(qty)` reads, and each read fed to the resolver lowers what is owed
/// by at least one: the refused address is isolated in logarithmically many reads.
pub proof fn lemma_bisection_log_bound(
    r: &Resolver,
    read: RangeRead,
    after: &Resolver,
    bad: u16,
    val: spec_fn(u16) -> u16,
)
    requires
        r.wf(),
        r.pending().len() > 0,
        answers(read, r.pending().last().0, r.pending().last().1, |a: u16| a == bad, val),
        r.fed(read, after),
    ensures
        owed_one(after.pending(), bad as int) < owed_one(r.pending(), bad as int),
        r.pending() == seq![(r.start(), r.qty(), 0usize)] ==> owed_one(r.pending(), bad as int) <= 1
            + 2 * clog2(r.qty() as int),
{
    let it = r.pending().last();
    let rest = r.pending().drop_last();
    let badf = |a: u16| a == bad;
    let b = bad as int;
    assert(r.item_ok(r.pending()[r.pending().len() - 1]));
    let term = if it.0 <= b < it.0 + it.1 {
        1 + 2 * clog2(it.1 as int)
    } else {
        1
    };
    assert(owed_one(r.pending(), b) == owed_one(rest, b) + term);
    if read == RangeRead::Exception(ILLEGAL_DATA_ADDRESS) && it.1 > 1 {
        let j = choose|j: int| 0 <= j < it.1 && #[trigger] badf((it.0 + j) as u16);
        assert(it.0 + j < 0x10000);
        assert(it.0 <= bad < it.0 + it.1);
        let rr = ((it.0 + it.1 / 2) as u16, (it.1 - it.1 / 2) as u16, (it.2 + it.1 / 2) as usize);
        let l = (it.0, it.1 / 2, it.2);
        assert(after.pending() == rest.push(rr).push(l));
        assert(rest.push(rr).push(l).drop_last() =~= rest.push(rr));
        assert(rest.push(rr).drop_last() =~= rest);
        assert(rr.1 == (it.1 as int + 1) / 2);
        lemma_clog2_mono(l.1 as int, rr.1 as int);
        assert(clog2(it.1 as int) == 1 + clog2((it.1 as int + 1) / 2));
        assert(rr.0 == it.0 + it.1 / 2);
        let tr = if rr.0 <= b < rr.0 + rr.1 {
            1 + 2 * clog2(rr.1 as int)
        } else {
            1
        };
        let tl = if l.0 <= b < l.0 + l.1 {
            1 + 2 * clog2(l.1 as int)
        } else {
            1
        };
        assert(owed_one(rest.push(rr), b) == owed_one(rest, b) + tr);
        assert(owed_one(after.pending(), b) == owed_one(rest.push(rr), b) + tl);
    } else {
        assert(after.pending() == rest);
    }
    if r.pending() == seq![(r.start(), r.qty(), 0usize)] {
        assert(rest =~= Seq::<(u16, u16, usize)>::empty());
        assert(owed_one(rest, b) == 0);
    }
}

/// `states` is a run of a resolver: each state is followed by the state that
/// feeding it the matching outcome of `reads` gives.
pub open spec fn is_run(states: Seq<Resolver>, reads: Seq<RangeRead>) -> bool {
    &&& states.len() == reads.len() + 1
    &&& states[0].wf()
    &&& forall|i: int| 0 <= i < reads.len() ==> #[trigger] run_step(states, reads, i)
}

/// Step `i` of a run: a read was pending, and its outcome led to the next state.
pub open spec fn run_step(states: Seq<Resolver>, reads: Seq<RangeRead>, i: int) -> bool {
    states[i].pending().len() > 0 && states[i].fed(reads[i], &states[i + 1])
}

/// Every outcome of the run is the device's answer to the range read.
pub open spec fn run_answers(
    states: Seq<Resolver>,
    reads: Seq<RangeRead>,
    bad: spec_fn(u16) -> bool,
    val: spec_fn(u16) -> u16,
) -> bool {
    forall|i: int|
        0 <= i < reads.len() ==> answers(
            #[trigger] reads[i],
            states[i].pending().last().0,
            states[i].pending().last().1,
            bad,
            val,
        )
}

proof fn lemma_run_prefix(states: Seq<Resolver>, reads: Seq<RangeRead>)
    requires
        is_run(states, reads),
        reads.len() > 0,
    ensures
        is_run(states.drop_last(), reads.drop_last()),
        states.last().wf(),
        states[reads.len() - 1].wf(),
        run_step(states, reads, reads.len() - 1),
{
    let n = reads.len() - 1;
    assert(run_step(states, reads, n));
    assert(states.last() == states[n + 1]);
    if n > 0 {
        assert(run_step(states, reads, n - 1));
        assert(n - 1 + 1 == n);
    }
    let s2 = states.drop_last();
    let r2 = reads.drop_last();
    assert(s2[0] == states[0]);
    assert forall|i: int| 0 <= i < r2.len() implies #[trigger] run_step(s2, r2, i) by {
        assert(run_step(states, reads, i));
        assert(r2[i] == reads[i]);
        assert(s2[i] == states[i]);
        assert(s2[i + 1] == states[i + 1]);
    }
}

/// A whole run of a fresh resolver against a device that refuses the addresses of
/// `bad` and answers the rest: it never goes offline, takes at most `2 * qty - 1`
/// reads, and once nothing is pending every refused address is `NotAvailable` and
/// every other one holds its value.
pub proof fn lemma_bisection_run(
    states: Seq<Resolver>,
    reads: Seq<RangeRead>,
    bad: spec_fn(u16) -> bool,
    val: spec_fn(u16) -> u16,
)
    requires
        is_run(states, reads),
        states[0].pending() == seq![(states[0].start(), states[0].qty(), 0usize)],
        run_answers(states, reads, bad, val),
    ensures
        resolved_right(&states.last(), bad, val),
        work(states.last().pending()) <= 2 * states[0].qty() - 1 - reads.len(),
        reads.len() <= 2 * states[0].qty() - 1,
        states.last().qty() == states[0].qty(),
        states.last().kind() == states[0].kind(),
        states.last().start() == states[0].start(),
        !states.last().is_offline() || reads.len() == 0,
        states.last().pending().len() == 0 ==> forall|i: int|
            0 <= i < states[0].qty() ==> #[trigger] states.last().cells()[i] == expected(
                states[0].kind(),
                (states[0].start() + i) as u16,
                bad,
                val,
            ),
    decreases reads.len(),
{
    let s0 = states[0];
    if reads.len() == 0 {
        lemma_bisection_start(&s0, bad, val);
        assert(s0.pending().drop_last() =~= Seq::<(u16, u16, usize)>::empty());
        assert(s0.pending().last() == (s0.start(), s0.qty(), 0usize));
        assert(work(Seq::<(u16, u16, usize)>::empty()) == 0);
        assert(work(s0.pending()) == 2 * s0.qty() - 1);
    } else {
        let n = reads.len() - 1;
        lemma_run_prefix(states, reads);
        let s2 = states.drop_last();
        let r2 = reads.drop_last();
        assert forall|i: int| 0 <= i < r2.len() implies answers(
            #[trigger] r2[i],
            s2[i].pending().last().0,
            s2[i].pending().last().1,
            bad,
            val,
        ) by {
            assert(answers(reads[i], states[i].pending().last().0, states[i].pending().last().1, bad, val));
        }
        lemma_bisection_run(s2, r2, bad, val);
        assert(s2.last() == states[n]);
        assert(run_step(states, reads, n));
        assert(answers(reads[n], states[n].pending().last().0, states[n].pending().last().1, bad, val));
        lemma_bisection_step(&states[n], reads[n], &states[n + 1], bad, val);
        lemma_bisection_bound(&states[n], reads[n], &states[n + 1]);
        lemma_work_nonneg_run(&states[n + 1]);
    }
}

proof fn lemma_work_nonneg_run(r: &Resolver)
    requires
        r.wf(),
    ensures
        work(r.pending()) >= 0,
{
    assert forall|k: int| 0 <= k < r.pending().len() implies (#[trigger] r.pending()[k]).1 >= 1 by {
        assert(r.item_ok(r.pending()[k]));
    }
    lemma_work_nonneg(r.pending());
}

proof fn lemma_owed_nonneg(items: Seq<(u16, u16, usize)>, bad: int)
    ensures
        owed_one(items, bad) >= 0,
    decreases items.len(),
{
    if items.len() > 0 {
        lemma_owed_nonneg(items.drop_last(), bad);
    }
}

/// A whole run of a fresh resolver against a device that refuses only `bad` takes
/// at most `1 + 2 * clog2(qty)` reads.
pub proof fn lemma_bisection_run_log(
    states: Seq<Resolver>,
    reads: Seq<RangeRead>,
    bad: u16,
    val: spec_fn(u16) -> u16,
)
    requires
        is_run(states, reads),
        states[0].pending() == seq![(states[0].start(), states[0].qty(), 0usize)],
        run_answers(states, reads, |a: u16| a == bad, val),
    ensures
        owed_one(states.last().pending(), bad as int) <= 1 + 2 * clog2(states[0].qty() as int)
            - reads.len(),
        reads.len() <= 1 + 2 * clog2(states[0].qty() as int),
    decreases reads.len(),
{
    if reads.len() == 0 {
        let s0 = states[0];
        assert(s0.pending().drop_last() =~= Seq::<(u16, u16, usize)>::empty());
        assert(s0.pending().last() == (s0.start(), s0.qty(), 0usize));
        let b = bad as int;
        let t = if s0.start() <= b < s0.start() + s0.qty() {
            1 + 2 * clog2(s0.qty() as int)
        } else {
            1
        };
        assert(owed_one(s0.pending(), b) == owed_one(Seq::<(u16, u16, usize)>::empty(), b) + t);
        assert(states.last() == s0);
    } else {
        let n = reads.len() - 1;
        lemma_run_prefix(states, reads);
        let s2 = states.drop_last();
        let r2 = reads.drop_last();
        assert forall|i: int| 0 <= i < r2.len() implies answers(
            #[trigger] r2[i],
            s2[i].pending().last().0,
            s2[i].pending().last().1,
            |a: u16| a == bad,
            val,
        ) by {
            assert(answers(
                reads[i],
                states[i].pending().last().0,
                states[i].pending().last().1,
                |a: u16| a == bad,
                val,
            ));
        }
        lemma_bisection_run_log(s2, r2, bad, val);
        assert(s2.last() == states[n]);
        assert(answers(
            reads[n],
            states[n].pending().last().0,
            states[n].pending().last().1,
            |a: u16| a == bad,
            val,
        ));
        lemma_bisection_log_bound(&states[n], reads[n], &states[n + 1], bad, val);
        assert(states.last() == states[n + 1]);
    }
    lemma_owed_nonneg(states.last().pending(), bad as int);
}

/// Over a whole run of a fresh resolver, it ends offline exactly when one of the
/// outcomes fed was a transport failure, and that outcome was the last one.
pub proof fn lemma_run_offline(states: Seq<Resolver>, reads: Seq<RangeRead>)
    requires
        is_run(states, reads),
        !states[0].is_offline(),
    ensures
        states.last().is_offline() == (exists|i: int| 0 <= i < reads.len() && #[trigger] reads[i] is Offline),
        forall|i: int| 0 <= i < reads.len() - 1 ==> !(#[trigger] reads[i] is Offline),
    decreases reads.len(),
{
    if reads.len() > 0 {
        let n = reads.len() - 1;
        lemma_run_prefix(states, reads);
        let s2 = states.drop_last();
        let r2 = reads.drop_last();
        lemma_run_offline(s2, r2);
        assert(s2.last() == states[n]);
        assert(run_step(states, reads, n));
        assert forall|i: int| 0 <= i < r2.len() implies (#[trigger] r2[i] is Offline) == (reads[i] is Offline) by {
            assert(r2[i] == reads[i]);
        }
        if n > 0 {
            assert(!states[n].is_offline());
        }
        assert(states.last() == states[n + 1]);
        assert forall|i: int| 0 <= i < n implies !(#[trigger] reads[i] is Offline) by {
            assert(r2[i] == reads[i]);
            if reads[i] is Offline {
                assert(r2[i] is Offline);
            }
        }
        if reads[n] is Offline {
            assert(states[n + 1].is_offline());
        } else {
            assert(!states[n + 1].is_offline());
            assert forall|i: int| 0 <= i < reads.len() implies !(#[trigger] reads[i] is Offline) by {
                if i < n {
                    assert(r2[i] == reads[i]);
                }
            }
        }
    } else {
        assert(states.last() == states[0]);
    }
}

} // verus!
