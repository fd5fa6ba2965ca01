use vstd::prelude::*;

verus! {

/// Exception code a device returns for an address it does not hold.
pub const ILLEGAL_DATA_ADDRESS: u8 = 2;

/// The four Modbus data categories.
#[derive(Debug, Clone, Copy, PartialEq, Eq, PartialOrd, Ord, Structural)]
pub enum RegType {
    Holding,
    Input,
    Coils,
    Discrete,
}

impl RegType {
    /// Coils and discrete inputs carry single bits.
    pub open spec fn is_bit(self) -> bool {
        self is Coils || self is Discrete
    }

    pub open spec fn spec_max_qty(self) -> u16 {
        if self.is_bit() {
            2000
        } else {
            125
        }
    }

    pub open spec fn spec_short(self) -> Seq<char> {
        match self {
            RegType::Holding => seq!['H', 'R'],
            RegType::Input => seq!['I', 'R'],
            RegType::Coils => seq!['C', 'O'],
            RegType::Discrete => seq!['D', 'I'],
        }
    }

    /// Two-letter label of the kind.
    pub fn short(self) -> (r: &'static str)
        ensures
            r@ == self.spec_short(),
    {
        proof {
            reveal_strlit("HR");
            reveal_strlit("IR");
            reveal_strlit("CO");
            reveal_strlit("DI");
        }
        match self {
            RegType::Holding => "HR",
            RegType::Input => "IR",
            RegType::Coils => "CO",
            RegType::Discrete => "DI",
        }
    }

    /// Largest element count one read request of this kind may ask for.
    pub fn max_qty(self) -> (r: u16)
        ensures
            r == self.spec_max_qty(),
    {
        match self {
            RegType::Holding | RegType::Input => 125,
            RegType::Coils | RegType::Discrete => 2000,
        }
    }
}

/// Why no value could be given for an address.
#[derive(Debug, Clone, Copy, PartialEq, Eq, Structural)]
pub enum CellErr {
    Timeout,
    Offline,
    NotAvailable,
    ModbusException(u8),
}

/// The outcome for one address.
#[derive(Debug, Clone, Copy, PartialEq, Eq, Structural)]
pub enum Cell {
    Value { raw: u16, bool: Option<bool> },
    Failure(CellErr),
}

/// One requested address with its outcome.
#[derive(Debug, Clone, Copy, PartialEq, Eq, Structural)]
pub struct Row {
    pub address: u16,
    pub reg_type: RegType,
    pub cell: Cell,
}

/// What one wire read of a range came to.
#[derive(Debug)]
pub enum RangeRead {
    /// The device answered with these values (bits widened to 0 or 1).
    Values(Vec<u16>),
    /// No answer within the timeout; the connection may still be usable.
    Timeout,
    /// The device answered with this exception code.
    Exception(u8),
    /// The transport failed; the connection is presumed dead.
    Offline,
}

pub open spec fn spec_ok_cell(ty: RegType, raw: u16) -> Cell {
    Cell::Value { raw, bool: if ty.is_bit() { Some(raw != 0) } else { None } }
}

/// The value cell for a raw element read from a range of kind `ty`.
pub fn ok_cell(ty: RegType, raw: u16) -> (r: Cell)
    ensures
        r == spec_ok_cell(ty, raw),
{
    let b = if matches!(ty, RegType::Coils | RegType::Discrete) {
        Some(raw != 0)
    } else {
        None
    };
    Cell::Value { raw, bool: b }
}

/// Addresses `start, start + 1, ..., start + qty - 1`.
pub open spec fn run(start: u16, qty: u16) -> Seq<u16> {
    Seq::new(qty as nat, |i: int| (start + i) as u16)
}

/// All addresses that a list of segments covers, in order.
pub open spec fn flatten(segs: Seq<(u16, u16)>) -> Seq<u16>
    decreases segs.len(),
{
    if segs.len() == 0 {
        Seq::empty()
    } else {
        flatten(segs.drop_last()) + run(segs.last().0, segs.last().1)
    }
}

pub open spec fn sorted_unique(a: Seq<u16>) -> bool {
    forall|i: int, j: int| 0 <= i < j < a.len() ==> a[i] < a[j]
}

/// Each segment is a non-empty run of at most `cap` addresses inside the 16-bit space.
pub open spec fn segments_bounded(segs: Seq<(u16, u16)>, cap: u16) -> bool {
    forall|k: int|
        0 <= k < segs.len() ==> 1 <= #[trigger] segs[k].1 <= cap && segs[k].0 + segs[k].1 <= 0x10000
}

/// No segment could take the next one's first address: it is full, or there is a gap.
pub open spec fn segments_maximal(segs: Seq<(u16, u16)>, cap: u16) -> bool {
    forall|k: int|
        0 <= k < segs.len() - 1 ==> #[trigger] segs[k].1 == cap || segs[k].0 + segs[k].1
            != segs[k + 1].0
}

proof fn lemma_flatten_push(segs: Seq<(u16, u16)>, s: (u16, u16))
    ensures
        flatten(segs.push(s)) == flatten(segs) + run(s.0, s.1),
{
    assert(segs.push(s).drop_last() =~= segs);
}

/// Splits sorted, distinct addresses into the fewest contiguous runs of at most `max_qty`
/// addresses, each given as `(start, count)`.
pub fn contiguous_segments(addrs: &[u16], max_qty: u16) -> (segs: Vec<(u16, u16)>)
    requires
        sorted_unique(addrs@),
        max_qty >= 1,
    ensures
        flatten(segs@) == addrs@,
        segments_bounded(segs@, max_qty),
        segments_maximal(segs@, max_qty),
{
    let mut segs: Vec<(u16, u16)> = Vec::new();
    let mut i: usize = 0;
    while i < addrs.len()
        invariant
            sorted_unique(addrs@),
            max_qty >= 1,
            i <= addrs.len(),
            flatten(segs@) == addrs@.subrange(0, i as int),
            segments_bounded(segs@, max_qty),
            segments_maximal(segs@, max_qty),
            segs.len() > 0 && i < addrs.len() ==> segs@.last().1 == max_qty || segs@.last().0
                + segs@.last().1 != addrs@[i as int],
        decreases addrs.len() - i,
    {
        let i0 = i;
        let start = addrs[i];
        let mut qty: u16 = 1;
        i = i + 1;
        assert(addrs@.subrange(i0 as int, i as int) =~= run(start, qty));
        while i < addrs.len() && qty < max_qty
            invariant
                sorted_unique(addrs@),
                i0 < i <= addrs.len(),
                1 <= qty <= max_qty,
                i == i0 + qty,
                start == addrs@[i0 as int],
                start + qty - 1 == addrs@[i - 1],
                addrs@.subrange(i0 as int, i as int) =~= run(start, qty),
            ensures
                i0 < i <= addrs.len(),
                1 <= qty <= max_qty,
                i == i0 + qty,
                start + qty - 1 == addrs@[i - 1],
                addrs@.subrange(i0 as int, i as int) =~= run(start, qty),
                i == addrs.len() || qty == max_qty || start + qty != addrs@[i as int],
            decreases addrs.len() - i,
        {
            let prev = addrs[i - 1];
            let next = addrs[i];
            if prev != u16::MAX && next == prev + 1 {
                qty = qty + 1;
                i = i + 1;
                assert(addrs@.subrange(i0 as int, i as int) =~= run(start, qty));
            } else {
                break;
            }
        }
        proof {
            lemma_flatten_push(segs@, (start, qty));
            assert(addrs@.subrange(0, i as int) =~= addrs@.subrange(0, i0 as int)
                + addrs@.subrange(i0 as int, i as int));
            if i < addrs.len() && qty < max_qty {
                assert(addrs@[i - 1] < addrs@[i as int]);
            }
        }
        segs.push((start, qty));
    }
    assert(addrs@.subrange(0, i as int) =~= addrs@);
    segs
}


/// `cells` with the `q` slots from `off` set to `c`.
pub open spec fn fill(cells: Seq<Cell>, off: int, q: int, c: Cell) -> Seq<Cell> {
    Seq::new(cells.len(), |i: int| if off <= i < off + q { c } else { cells[i] })
}

/// `cells` with the slots from `off` on set from `vals`, at most `q` of them.
pub open spec fn fill_values(cells: Seq<Cell>, off: int, q: int, ty: RegType, vals: Seq<u16>) -> Seq<
    Cell,
> {
    Seq::new(
        cells.len(),
        |i: int|
            if off <= i < off + q && i - off < vals.len() {
                spec_ok_cell(ty, vals[i - off])
            } else {
                cells[i]
            },
    )
}

/// Whether slot `i` lies in one of the pending ranges.
pub open spec fn covered(items: Seq<(u16, u16, usize)>, i: int) -> bool
    decreases items.len(),
{
    if items.len() == 0 {
        false
    } else {
        (items[0].2 <= i < items[0].2 + items[0].1) || covered(items.drop_first(), i)
    }
}

/// Resolves one segment into one cell per address. Each pending item is
/// `(first address, count, offset of its first cell)`; the caller reads the range
/// that `next_read` names and hands the outcome to `feed`. A range that the device
/// refuses as an illegal data address is split in halves until single addresses remain.
pub struct Resolver {
    kind: RegType,
    start: u16,
    qty: u16,
    cells: Vec<Cell>,
    stack: Vec<(u16, u16, usize)>,
    offline: bool,
}

impl Resolver {
    pub closed spec fn kind(&self) -> RegType {
        self.kind
    }

    pub closed spec fn start(&self) -> u16 {
        self.start
    }

    pub closed spec fn qty(&self) -> u16 {
        self.qty
    }

    pub closed spec fn cells(&self) -> Seq<Cell> {
        self.cells@
    }

    pub closed spec fn pending(&self) -> Seq<(u16, u16, usize)> {
        self.stack@
    }

    pub closed spec fn is_offline(&self) -> bool {
        self.offline
    }

    /// A pending item names a non-empty part of the segment, at its own offset.
    pub open spec fn item_ok(&self, it: (u16, u16, usize)) -> bool {
        1 <= it.1 && it.2 + it.1 <= self.qty() && it.0 == self.start() + it.2
    }

    pub open spec fn wf(&self) -> bool {
        &&& self.qty() >= 1
        &&& self.start() + self.qty() <= 0x10000
        &&& self.cells().len() == self.qty()
        &&& forall|k: int| 0 <= k < self.pending().len() ==> self.item_ok(#[trigger] self.pending()[k])
        &&& self.is_offline() ==> self.pending().len() == 0
    }

    /// A resolver for the `qty` addresses from `start`, with every cell `Offline`
    /// until a read says otherwise.
    pub fn new(kind: RegType, start: u16, qty: u16) -> (r: Resolver)
        requires
            qty >= 1,
            start + qty <= 0x10000,
        ensures
            r.wf(),
            r.kind() == kind,
            r.start() == start,
            r.qty() == qty,
            r.cells() == Seq::new(qty as nat, |i: int| Cell::Failure(CellErr::Offline)),
            r.pending() == seq![(start, qty, 0usize)],
            !r.is_offline(),
    {
        let mut cells: Vec<Cell> = Vec::new();
        let mut i: u16 = 0;
        while i < qty
            invariant
                i <= qty,
                cells@ == Seq::new(i as nat, |j: int| Cell::Failure(CellErr::Offline)),
            decreases qty - i,
        {
            cells.push(Cell::Failure(CellErr::Offline));
            i = i + 1;
            assert(cells@ =~= Seq::new(i as nat, |j: int| Cell::Failure(CellErr::Offline)));
        }
        let mut stack: Vec<(u16, u16, usize)> = Vec::new();
        stack.push((start, qty, 0usize));
        assert(stack@ =~= seq![(start, qty, 0usize)]);
        Resolver { kind, start, qty, cells, stack, offline: false }
    }

    /// The range to read next, `(first address, count)`, or `None` when all is resolved.
    pub fn next_read(&self) -> (r: Option<(u16, u16)>)
        requires
            self.wf(),
        ensures
            self.pending().len() == 0 <==> r is None,
            r matches Some(p) ==> p == (self.pending().last().0, self.pending().last().1),
    {
        if self.stack.len() == 0 {
            None
        } else {
            let it = self.stack[self.stack.len() - 1];
            Some((it.0, it.1))
        }
    }

    /// Whether a transport failure was met.
    pub fn went_offline(&self) -> (r: bool)
        ensures
            r == self.is_offline(),
    {
        self.offline
    }

    fn fill_range(&mut self, off: usize, q: u16, c: Cell)
        requires
            off + q <= old(self).cells().len(),
        ensures
            final(self).cells() == fill(old(self).cells(), off as int, q as int, c),
            final(self).kind == old(self).kind,
            final(self).start == old(self).start,
            final(self).qty == old(self).qty,
            final(self).stack == old(self).stack,
            final(self).offline == old(self).offline,
    {
        let ghost c0 = self.cells@;
        let mut i: u16 = 0;
        while i < q
            invariant
                i <= q,
                off + q <= c0.len(),
                self.cells.len() == c0.len(),
                self.cells@ == fill(c0, off as int, i as int, c),
                self.kind == old(self).kind,
                self.start == old(self).start,
                self.qty == old(self).qty,
                self.stack == old(self).stack,
                self.offline == old(self).offline,
            decreases q - i,
        {
            self.cells.set(off + i as usize, c);
            i = i + 1;
            assert(self.cells@ =~= fill(c0, off as int, i as int, c));
        }
    }

    /// How one read's outcome changes the resolver: the range read is taken off the
    /// pending list and its cells are set, or it is split in halves on an illegal data
    /// address; a transport failure marks every pending cell `Offline` and ends the work.
    pub open spec fn fed(&self, read: RangeRead, after: &Resolver) -> bool {
        &&& after.wf()
        &&& after.kind() == self.kind()
        &&& after.start() == self.start()
        &&& after.qty() == self.qty()
        &&& {
            let it = self.pending().last();
            let rest = self.pending().drop_last();
            let cells = self.cells();
            let off = it.2 as int;
            let q = it.1 as int;
            match read {
                RangeRead::Values(v) => after.cells() == fill_values(
                    cells,
                    off,
                    q,
                    self.kind(),
                    v@,
                ) && after.pending() == rest && !after.is_offline(),
                RangeRead::Timeout => after.cells() == fill(
                    cells,
                    off,
                    q,
                    Cell::Failure(CellErr::Timeout),
                ) && after.pending() == rest && !after.is_offline(),
                RangeRead::Exception(c) => if c != ILLEGAL_DATA_ADDRESS {
                    after.cells() == fill(
                        cells,
                        off,
                        q,
                        Cell::Failure(CellErr::ModbusException(c)),
                    ) && after.pending() == rest && !after.is_offline()
                } else if q == 1 {
                    after.cells() == fill(cells, off, 1, Cell::Failure(CellErr::NotAvailable))
                        && after.pending() == rest && !after.is_offline()
                } else {
                    after.cells() == cells && after.pending() == rest.push(
                        ((it.0 + it.1 / 2) as u16, (it.1 - it.1 / 2) as u16, (it.2 + it.1 / 2) as usize),
                    ).push((it.0, it.1 / 2, it.2)) && !after.is_offline()
                },
                RangeRead::Offline => after.is_offline() && after.pending().len() == 0
                    && after.cells() == Seq::new(
                    cells.len(),
                    |i: int|
                        if covered(self.pending(), i) {
                            Cell::Failure(CellErr::Offline)
                        } else {
                            cells[i]
                        },
                ),
            }
        }
    }

    /// Applies the outcome of reading the range that `next_read` named.
    pub fn feed(&mut self, read: RangeRead)
        requires
            old(self).wf(),
            old(self).pending().len() > 0,
        ensures
            final(self).wf(),
            final(self).kind() == old(self).kind(),
            final(self).start() == old(self).start(),
            final(self).qty() == old(self).qty(),
            old(self).fed(read, &*final(self)),
    {
        let it = self.stack.pop().unwrap();
        let (s, q, off) = it;
        assert(old(self).item_ok(old(self).stack@.last()));
        match read {
            RangeRead::Values(values) => {
                let mut i: usize = 0;
                let ghost c0 = self.cells@;
                while i < values.len() && i < q as usize
                    invariant
                        i <= values.len(),
                        i <= q,
                        off + q <= c0.len(),
                        self.cells.len() == c0.len(),
                        self.cells@ == Seq::new(
                            c0.len(),
                            |j: int|
                                if off <= j < off + i {
                                    spec_ok_cell(self.kind, values@[j - off])
                                } else {
                                    c0[j]
                                },
                        ),
                        self.kind == old(self).kind,
                        self.start == old(self).start,
                        self.qty == old(self).qty,
                        old(self).stack@.len() > 0,
                        self.stack@ == old(self).stack@.drop_last(),
                        self.offline == old(self).offline,
                    decreases q - i,
                {
                    let c = ok_cell(self.kind, values[i]);
                    self.cells.set(off + i, c);
                    i = i + 1;
                    assert(self.cells@ =~= Seq::new(
                        c0.len(),
                        |j: int|
                            if off <= j < off + i {
                                spec_ok_cell(self.kind, values@[j - off])
                            } else {
                                c0[j]
                            },
                    ));
                }
                assert(self.cells@ =~= fill_values(c0, off as int, q as int, self.kind, values@));
            },
            RangeRead::Timeout => {
                self.fill_range(off, q, Cell::Failure(CellErr::Timeout));
            },
            RangeRead::Exception(code) => {
                if code != ILLEGAL_DATA_ADDRESS {
                    self.fill_range(off, q, Cell::Failure(CellErr::ModbusException(code)));
                } else if q == 1 {
                    self.fill_range(off, 1, Cell::Failure(CellErr::NotAvailable));
                } else {
                    let left = q / 2;
                    let right = q - left;
                    self.stack.push((s + left, right, off + left as usize));
                    self.stack.push((s, left, off));
                    proof {
                        let p = self.stack@;
                        assert forall|k: int| 0 <= k < p.len() implies self.item_ok(
                            #[trigger] p[k],
                        ) by {
                            if k < p.len() - 2 {
                                assert(p[k] == old(self).stack@[k]);
                            }
                        }
                    }
                }
            },
            RangeRead::Offline => {
                self.offline = true;
                self.fill_range(off, q, Cell::Failure(CellErr::Offline));
                let ghost c0 = old(self).cells@;
                let ghost all = old(self).stack@;
                proof {
                    let one = all.subrange(all.len() - 1, all.len() as int);
                    assert(one.len() == 1 && one[0] == it);
                    assert(one.drop_first() =~= Seq::<(u16, u16, usize)>::empty());
                    assert forall|i: int| #[trigger] covered(one, i) == (off <= i < off + q) by {
                        assert(!covered(one.drop_first(), i));
                    }
                    assert(self.cells@ =~= Seq::new(
                        c0.len(),
                        |i: int| if covered(one, i) { Cell::Failure(CellErr::Offline) } else { c0[i] },
                    ));
                }
                while self.stack.len() > 0
                    invariant
                        self.stack@ == all.subrange(0, self.stack@.len() as int),
                        self.stack@.len() < all.len(),
                        forall|k: int| 0 <= k < all.len() ==> old(self).item_ok(#[trigger] all[k]),
                        self.cells@ == Seq::new(
                            c0.len(),
                            |i: int|
                                if covered(all.subrange(self.stack@.len() as int, all.len() as int), i) {
                                    Cell::Failure(CellErr::Offline)
                                } else {
                                    c0[i]
                                },
                        ),
                        c0.len() == old(self).qty,
                        self.kind == old(self).kind,
                        self.start == old(self).start,
                        self.qty == old(self).qty,
                        self.offline,
                    decreases self.stack.len(),
                {
                    let ghost n = self.stack@.len() as int;
                    let (_, q2, off2) = self.stack.pop().unwrap();
                    proof {
                        assert(old(self).item_ok(all[n - 1]));
                        assert(all.subrange(n - 1, all.len() as int).drop_first() =~= all.subrange(n, all.len() as int));
                        assert(self.stack@ =~= all.subrange(0, n - 1));
                    }
                    self.fill_range(off2, q2, Cell::Failure(CellErr::Offline));
                    assert(self.cells@ =~= Seq::new(
                        c0.len(),
                        |i: int|
                            if covered(all.subrange(n - 1, all.len() as int), i) {
                                Cell::Failure(CellErr::Offline)
                            } else {
                                c0[i]
                            },
                    ));
                }
                assert(all.subrange(0, all.len() as int) =~= all);
            },
        }
    }

    /// The cells of the segment, and whether the connection was lost on the way.
    pub fn finish(self) -> (r: (Vec<Cell>, bool))
        ensures
            r.0@ == self.cells(),
            r.1 == self.is_offline(),
    {
        (self.cells, self.offline)
    }
}

/// `(kind, address)` of each row.
pub open spec fn keys(rows: Seq<Row>) -> Seq<(RegType, u16)> {
    rows.map_values(|r: Row| (r.reg_type, r.address))
}

/// `(kind, address)` of each address of a segment.
pub open spec fn seg_keys(ty: RegType, start: u16, qty: u16) -> Seq<(RegType, u16)> {
    run(start, qty).map_values(|a: u16| (ty, a))
}

/// `(kind, address)` of each address that a plan of segments covers, in order.
pub open spec fn plan_keys(plan: Seq<(RegType, u16, u16)>) -> Seq<(RegType, u16)>
    decreases plan.len(),
{
    if plan.len() == 0 {
        Seq::empty()
    } else {
        plan_keys(plan.drop_last()) + seg_keys(plan.last().0, plan.last().1, plan.last().2)
    }
}

/// `(kind, address)` of each requested address, request by request.
pub open spec fn req_keys(reqs: Seq<(RegType, Vec<u16>)>) -> Seq<(RegType, u16)>
    decreases reqs.len(),
{
    if reqs.len() == 0 {
        Seq::empty()
    } else {
        req_keys(reqs.drop_last()) + reqs.last().1@.map_values(|a: u16| (reqs.last().0, a))
    }
}

/// Each request lists sorted, distinct addresses.
pub open spec fn reqs_ok(reqs: Seq<(RegType, Vec<u16>)>) -> bool {
    forall|k: int| 0 <= k < reqs.len() ==> sorted_unique(#[trigger] reqs[k].1@)
}

/// Rows for the `qty` addresses from `start`, with cells taken in order from `cells`.
fn push_rows(rows: &mut Vec<Row>, ty: RegType, start: u16, qty: u16, cells: &Vec<Cell>)
    requires
        cells.len() == qty,
        start + qty <= 0x10000,
    ensures
        final(rows)@ == old(rows)@ + Seq::new(
            qty as nat,
            |i: int| Row { address: (start + i) as u16, reg_type: ty, cell: cells@[i] },
        ),
{
    let ghost r0 = rows@;
    let mut i: u16 = 0;
    while i < qty
        invariant
            i <= qty,
            cells.len() == qty,
            start + qty <= 0x10000,
            rows@ == r0 + Seq::new(
                i as nat,
                |j: int| Row { address: (start + j) as u16, reg_type: ty, cell: cells@[j] },
            ),
        decreases qty - i,
    {
        rows.push(Row { address: start + i, reg_type: ty, cell: cells[i as usize] });
        i = i + 1;
        assert(rows@ =~= r0 + Seq::new(
            i as nat,
            |j: int| Row { address: (start + j) as u16, reg_type: ty, cell: cells@[j] },
        ));
    }
}

/// Rows for the `qty` addresses from `start`, all `Offline`.
fn push_offline_rows(rows: &mut Vec<Row>, ty: RegType, start: u16, qty: u16)
    requires
        start + qty <= 0x10000,
    ensures
        final(rows)@ == old(rows)@ + Seq::new(
            qty as nat,
            |i: int| Row { address: (start + i) as u16, reg_type: ty, cell: Cell::Failure(CellErr::Offline) },
        ),
{
    let ghost r0 = rows@;
    let mut i: u16 = 0;
    while i < qty
        invariant
            i <= qty,
            start + qty <= 0x10000,
            rows@ == r0 + Seq::new(
                i as nat,
                |j: int| Row { address: (start + j) as u16, reg_type: ty, cell: Cell::Failure(CellErr::Offline) },
            ),
        decreases qty - i,
    {
        rows.push(Row { address: start + i, reg_type: ty, cell: Cell::Failure(CellErr::Offline) });
        i = i + 1;
        assert(rows@ =~= r0 + Seq::new(
            i as nat,
            |j: int| Row { address: (start + j) as u16, reg_type: ty, cell: Cell::Failure(CellErr::Offline) },
        ));
    }
}

/// Every row of `rows` is `Offline`.
pub open spec fn all_offline(rows: Seq<Row>) -> bool {
    forall|j: int| 0 <= j < rows.len() ==> (#[trigger] rows[j]).cell == Cell::Failure(CellErr::Offline)
}

proof fn lemma_req_keys_step(reqs: Seq<(RegType, Vec<u16>)>, k: int)
    requires
        0 <= k < reqs.len(),
    ensures
        req_keys(reqs.subrange(0, k + 1)) == req_keys(reqs.subrange(0, k)) + reqs[k].1@.map_values(
            |a: u16| (reqs[k].0, a),
        ),
{
    assert(reqs.subrange(0, k + 1).drop_last() =~= reqs.subrange(0, k));
}

/// One `Offline` row per requested address: what a cycle reports when no connection
/// could be made.
pub fn offline_rows(reqs: &[(RegType, Vec<u16>)]) -> (r: Vec<Row>)
    ensures
        keys(r@) == req_keys(reqs@),
        all_offline(r@),
{
    let mut out: Vec<Row> = Vec::new();
    let mut k: usize = 0;
    while k < reqs.len()
        invariant
            k <= reqs.len(),
            keys(out@) == req_keys(reqs@.subrange(0, k as int)),
            all_offline(out@),
        decreases reqs.len() - k,
    {
        let ty = reqs[k].0;
        let addrs = &reqs[k].1;
        let ghost o0 = out@;
        let mut i: usize = 0;
        while i < addrs.len()
            invariant
                i <= addrs.len(),
                k < reqs.len(),
                addrs == &reqs@[k as int].1,
                ty == reqs@[k as int].0,
                keys(out@) == keys(o0) + addrs@.subrange(0, i as int).map_values(|a: u16| (ty, a)),
                all_offline(out@),
            decreases addrs.len() - i,
        {
            let ghost before = out@;
            out.push(Row { address: addrs[i], reg_type: ty, cell: Cell::Failure(CellErr::Offline) });
            assert(keys(out@) =~= keys(before).push((ty, addrs@[i as int])));
            assert(addrs@.subrange(0, i + 1).map_values(|a: u16| (ty, a)) =~= addrs@.subrange(
                0,
                i as int,
            ).map_values(|a: u16| (ty, a)).push((ty, addrs@[i as int])));
            i = i + 1;
            assert(keys(out@) =~= keys(o0) + addrs@.subrange(0, i as int).map_values(|a: u16| (ty, a)));
        }
        proof {
            lemma_req_keys_step(reqs@, k as int);
            assert(addrs@.subrange(0, i as int) =~= addrs@);
        }
        k = k + 1;
    }
    assert(reqs@.subrange(0, k as int) =~= reqs@);
    out
}

proof fn lemma_plan_keys_push(plan: Seq<(RegType, u16, u16)>, x: (RegType, u16, u16))
    ensures
        plan_keys(plan.push(x)) == plan_keys(plan) + seg_keys(x.0, x.1, x.2),
{
    assert(plan.push(x).drop_last() =~= plan);
}

proof fn lemma_flatten_step(segs: Seq<(u16, u16)>, j: int)
    requires
        0 <= j < segs.len(),
    ensures
        flatten(segs.subrange(0, j + 1)) == flatten(segs.subrange(0, j)) + run(segs[j].0, segs[j].1),
{
    assert(segs.subrange(0, j + 1).drop_last() =~= segs.subrange(0, j));
}

/// `segs` is the segmentation of `addrs` under `cap`: it covers them in order, in
/// runs of at most `cap`, none of which could take its successor's first address.
/// There is exactly one such list, the one `contiguous_segments` returns.
pub open spec fn is_segmentation(addrs: Seq<u16>, cap: u16, segs: Seq<(u16, u16)>) -> bool {
    &&& flatten(segs) == addrs
    &&& segments_bounded(segs, cap)
    &&& segments_maximal(segs, cap)
}

/// The segments of each request, tagged with its kind, request after request.
pub open spec fn tagged(reqs: Seq<(RegType, Vec<u16>)>, groups: Seq<Seq<(u16, u16)>>) -> Seq<
    (RegType, u16, u16),
>
    decreases reqs.len(),
{
    if reqs.len() == 0 || groups.len() == 0 {
        Seq::empty()
    } else {
        tagged(reqs.drop_last(), groups.drop_last()) + groups.last().map_values(
            |g: (u16, u16)| (reqs.last().0, g.0, g.1),
        )
    }
}

/// Every cell of a segment of `q` addresses `Offline`.
pub open spec fn offline_cells(q: u16) -> Seq<Cell> {
    Seq::new(q as nat, |i: int| Cell::Failure(CellErr::Offline))
}

/// The rows of one segment with the given cells.
pub open spec fn seg_rows(seg: (RegType, u16, u16), cells: Seq<Cell>) -> Seq<Row> {
    Seq::new(seg.2 as nat, |i: int| Row { address: (seg.1 + i) as u16, reg_type: seg.0, cell: cells[i] })
}

/// The rows of the segments of `plan`, the cells of each taken from `hist`.
pub open spec fn rows_of(plan: Seq<(RegType, u16, u16)>, hist: Seq<Seq<Cell>>) -> Seq<Row>
    decreases plan.len(),
{
    if plan.len() == 0 || hist.len() == 0 {
        Seq::empty()
    } else {
        rows_of(plan.drop_last(), hist.drop_last()) + seg_rows(plan.last(), hist.last())
    }
}

/// One poll cycle over a list of requests. Each request's addresses are planned as
/// their segmentation under the kind's request size; each segment is resolved by a
/// `Resolver`, whose final cells become the segment's rows. The caller performs the
/// read that `next_read` names and hands its outcome to `feed`. Once a read meets a
/// transport failure, no further read is asked for and every segment not yet
/// resolved is reported `Offline`.
pub struct Poll {
    plan: Vec<(RegType, u16, u16)>,
    next: usize,
    res: Resolver,
    active: bool,
    rows: Vec<Row>,
    offline: bool,
    offline_from: Ghost<int>,
    requested: Ghost<Seq<(RegType, u16)>>,
    groups: Ghost<Seq<Seq<(u16, u16)>>>,
    hist: Ghost<Seq<Seq<Cell>>>,
}

impl Poll {
    pub closed spec fn plan(&self) -> Seq<(RegType, u16, u16)> {
        self.plan@
    }

    pub closed spec fn rows(&self) -> Seq<Row> {
        self.rows@
    }

    pub closed spec fn is_offline(&self) -> bool {
        self.offline
    }

    /// Index of the first row produced after the connection was lost.
    pub closed spec fn offline_from(&self) -> int {
        self.offline_from@
    }

    /// `(kind, address)` of every requested address, in request order.
    pub closed spec fn requested(&self) -> Seq<(RegType, u16)> {
        self.requested@
    }

    /// The segments of each request, in request order.
    pub closed spec fn groups(&self) -> Seq<Seq<(u16, u16)>> {
        self.groups@
    }

    /// The cells of each segment resolved so far, in plan order.
    pub closed spec fn history(&self) -> Seq<Seq<Cell>> {
        self.hist@
    }

    /// Index in the plan of the segment being resolved, or of the next one to start.
    pub closed spec fn current(&self) -> int {
        self.next as int
    }

    /// A segment is being resolved.
    pub closed spec fn is_active(&self) -> bool {
        self.active
    }

    /// A read has been asked for and its outcome not yet fed.
    pub open spec fn awaiting(&self) -> bool {
        self.is_active() && self.resolver().pending().len() > 0
    }

    /// Every segment has been resolved.
    pub open spec fn done(&self) -> bool {
        self.current() == self.plan().len() && !self.is_active()
    }

    pub closed spec fn resolver(&self) -> Resolver {
        self.res
    }

    pub closed spec fn wf(&self) -> bool {
        &&& self.next <= self.plan@.len()
        &&& forall|k: int|
            0 <= k < self.plan@.len() ==> 1 <= (#[trigger] self.plan@[k]).2 && self.plan@[k].1
                + self.plan@[k].2 <= 0x10000
        &&& plan_keys(self.plan@) == self.requested@
        &&& self.active ==> {
            &&& self.next < self.plan@.len()
            &&& self.res.wf()
            &&& self.res.kind() == self.plan@[self.next as int].0
            &&& self.res.start() == self.plan@[self.next as int].1
            &&& self.res.qty() == self.plan@[self.next as int].2
        }
        &&& keys(self.rows@) == plan_keys(self.plan@.subrange(0, self.next as int))
        &&& self.hist@.len() == self.next
        &&& self.rows@ == rows_of(self.plan@.subrange(0, self.next as int), self.hist@)
        &&& self.offline ==> !self.active
        &&& self.offline ==> 0 <= self.offline_from@ <= self.rows@.len()
        &&& self.offline ==> all_offline(
            self.rows@.subrange(self.offline_from@, self.rows@.len() as int),
        )
    }

    /// A cycle over `reqs`, each a kind with sorted, distinct addresses.
    pub fn new(reqs: &[(RegType, Vec<u16>)]) -> (r: Poll)
        requires
            reqs_ok(reqs@),
        ensures
            r.wf(),
            r.requested() == req_keys(reqs@),
            r.groups().len() == reqs@.len(),
            forall|k: int|
                0 <= k < reqs@.len() ==> is_segmentation(
                    reqs@[k].1@,
                    reqs@[k].0.spec_max_qty(),
                    #[trigger] r.groups()[k],
                ),
            r.plan() == tagged(reqs@, r.groups()),
            r.rows().len() == 0,
            r.history().len() == 0,
            r.current() == 0,
            !r.is_active(),
            !r.is_offline(),
    {
        let ghost mut groups: Seq<Seq<(u16, u16)>> = Seq::empty();
        let mut plan: Vec<(RegType, u16, u16)> = Vec::new();
        let mut k: usize = 0;
        while k < reqs.len()
            invariant
                k <= reqs.len(),
                reqs_ok(reqs@),
                plan_keys(plan@) == req_keys(reqs@.subrange(0, k as int)),
                forall|m: int|
                    0 <= m < plan@.len() ==> 1 <= (#[trigger] plan@[m]).2 && plan@[m].1 + plan@[m].2
                        <= 0x10000,
                groups.len() == k,
                forall|m: int|
                    0 <= m < k ==> is_segmentation(
                        reqs@[m].1@,
                        reqs@[m].0.spec_max_qty(),
                        #[trigger] groups[m],
                    ),
                plan@ == tagged(reqs@.subrange(0, k as int), groups),
            decreases reqs.len() - k,
        {
            let ty = reqs[k].0;
            let cap = ty.max_qty();
            assert(sorted_unique(reqs@[k as int].1@));
            let segs = contiguous_segments(reqs[k].1.as_slice(), cap);
            let ghost p0 = plan@;
            let mut j: usize = 0;
            while j < segs.len()
                invariant
                    j <= segs.len(),
                    segments_bounded(segs@, cap),
                    plan_keys(plan@) == plan_keys(p0) + flatten(segs@.subrange(0, j as int)).map_values(
                        |a: u16| (ty, a),
                    ),
                    forall|m: int|
                        0 <= m < plan@.len() ==> 1 <= (#[trigger] plan@[m]).2 && plan@[m].1
                            + plan@[m].2 <= 0x10000,
                    plan@ == p0 + segs@.subrange(0, j as int).map_values(
                        |g: (u16, u16)| (ty, g.0, g.1),
                    ),
                decreases segs.len() - j,
            {
                let (st, q) = segs[j];
                proof {
                    assert(1 <= segs@[j as int].1 <= cap);
                    lemma_plan_keys_push(plan@, (ty, st, q));
                    lemma_flatten_step(segs@, j as int);
                    assert(seg_keys(ty, st, q) =~= run(st, q).map_values(|a: u16| (ty, a)));
                    assert((flatten(segs@.subrange(0, j as int)) + run(st, q)).map_values(
                        |a: u16| (ty, a),
                    ) =~= flatten(segs@.subrange(0, j as int)).map_values(|a: u16| (ty, a))
                        + run(st, q).map_values(|a: u16| (ty, a)));
                }
                plan.push((ty, st, q));
                j = j + 1;
                assert(plan@ =~= p0 + segs@.subrange(0, j as int).map_values(
                    |g: (u16, u16)| (ty, g.0, g.1),
                ));
            }
            proof {
                assert(segs@.subrange(0, j as int) =~= segs@);
                lemma_req_keys_step(reqs@, k as int);
                let g0 = groups;
                groups = groups.push(segs@);
                assert(reqs@.subrange(0, k + 1).drop_last() =~= reqs@.subrange(0, k as int));
                assert(groups.drop_last() =~= g0);
                assert(plan@ == tagged(reqs@.subrange(0, k + 1), groups));
                assert forall|m: int|
                    0 <= m < k + 1 implies is_segmentation(
                    reqs@[m].1@,
                    reqs@[m].0.spec_max_qty(),
                    #[trigger] groups[m],
                ) by {
                    if m < k {
                        assert(groups[m] == g0[m]);
                    }
                }
            }
            k = k + 1;
        }
        assert(reqs@.subrange(0, k as int) =~= reqs@);
        assert(plan@.subrange(0, 0) =~= Seq::<(RegType, u16, u16)>::empty());
        let r = Poll {
            plan,
            next: 0,
            // idle until the first segment starts
            res: Resolver::new(RegType::Holding, 0, 1),
            active: false,
            rows: Vec::new(),
            offline: false,
            offline_from: Ghost(0),
            requested: Ghost(req_keys(reqs@)),
            groups: Ghost(groups),
            hist: Ghost(Seq::empty()),
        };
        assert(keys(r.rows@) =~= plan_keys(r.plan@.subrange(0, 0)));
        assert(r.rows@ =~= rows_of(r.plan@.subrange(0, 0), r.hist@));
        r
    }

    /// Advances to the next read to perform, `(kind, first address, count)`, or
    /// `None` when every requested address has its row.
    ///
    /// A segment whose resolver has no read left is recorded with that resolver's
    /// cells, and the cycle goes offline exactly when that resolver met a transport
    /// failure. Once offline, no read is asked for and every later segment is
    /// recorded all `Offline`. A segment that starts gets a fresh resolver.
    pub fn next_read(&mut self) -> (r: Option<(RegType, u16, u16)>)
        requires
            old(self).wf(),
        ensures
            final(self).wf(),
            final(self).plan() == old(self).plan(),
            final(self).requested() == old(self).requested(),
            final(self).groups() == old(self).groups(),
            old(self).rows().len() <= final(self).rows().len(),
            final(self).rows().subrange(0, old(self).rows().len() as int) == old(self).rows(),
            old(self).is_offline() ==> final(self).is_offline() && final(self).offline_from()
                == old(self).offline_from(),
            final(self).rows() == rows_of(
                final(self).plan().subrange(0, final(self).current()),
                final(self).history(),
            ),
            final(self).history().len() == final(self).current(),
            old(self).current() <= final(self).current(),
            final(self).history().subrange(0, old(self).current()) == old(self).history(),
            old(self).awaiting() ==> {
                &&& final(self).current() == old(self).current()
                &&& final(self).is_active()
                &&& final(self).resolver() == old(self).resolver()
                &&& final(self).rows() == old(self).rows()
                &&& final(self).history() == old(self).history()
                &&& final(self).is_offline() == old(self).is_offline()
            },
            old(self).is_active() && !old(self).awaiting() ==> {
                &&& final(self).current() > old(self).current()
                &&& final(self).history()[old(self).current()] == old(self).resolver().cells()
            },
            !old(self).awaiting() ==> final(self).is_offline() == (old(self).is_offline() || (
            old(self).is_active() && old(self).resolver().is_offline())),
            forall|k: int|
                old(self).current() <= k < final(self).current() && !(old(self).is_active() && k
                    == old(self).current()) ==> final(self).is_offline()
                    && #[trigger] final(self).history()[k] == offline_cells(final(self).plan()[k].2),
            r is None <==> final(self).done(),
            r matches Some(t) ==> {
                &&& final(self).awaiting()
                &&& !final(self).is_offline()
                &&& final(self).current() < final(self).plan().len()
                &&& final(self).resolver().kind() == final(self).plan()[final(self).current()].0
                &&& final(self).resolver().start() == final(self).plan()[final(self).current()].1
                &&& final(self).resolver().qty() == final(self).plan()[final(self).current()].2
                &&& t.0 == final(self).resolver().kind()
                &&& t.1 == final(self).resolver().pending().last().0
                &&& t.2 == final(self).resolver().pending().last().1
            },
            r is Some && !old(self).awaiting() ==> {
                &&& final(self).resolver().pending() == seq![
                    (final(self).resolver().start(), final(self).resolver().qty(), 0usize),
                ]
                &&& final(self).resolver().cells() == offline_cells(final(self).resolver().qty())
                &&& !final(self).resolver().is_offline()
            },
    {
        let ghost o = *self;
        assert(self.hist@.subrange(0, self.next as int) =~= self.hist@);
        assert(self.rows@.subrange(0, self.rows@.len() as int) =~= self.rows@);
        loop
            invariant
                self.wf(),
                o == *old(self),
                self.plan@ == o.plan@,
                self.requested@ == o.requested@,
                self.groups@ == o.groups@,
                o.rows@.len() <= self.rows@.len(),
                self.rows@.subrange(0, o.rows@.len() as int) == o.rows@,
                o.offline ==> self.offline && self.offline_from@ == o.offline_from@,
                o.next <= self.next,
                self.hist@.subrange(0, o.next as int) == o.hist@,
                self.next == o.next && o.active ==> {
                    &&& self.active
                    &&& self.res == o.res
                    &&& self.rows@ == o.rows@
                    &&& self.hist@ == o.hist@
                    &&& self.offline == o.offline
                },
                self.next == o.next && !o.active ==> self.rows@ == o.rows@ && self.hist@ == o.hist@
                    && self.offline == o.offline,
                self.next > o.next && o.active ==> self.hist@[o.next as int] == o.res.cells(),
                self.next > o.next && o.active ==> o.res.pending().len() == 0,
                forall|k: int|
                    o.next <= k < self.next && !(o.active && k == o.next) ==> self.offline
                        && #[trigger] self.hist@[k] == offline_cells(self.plan@[k].2),
                self.offline == (o.offline || (o.active && self.next > o.next && o.res.is_offline())),
                self.active && !(o.active && self.next == o.next) ==> {
                    &&& self.res.pending() == seq![(self.res.start(), self.res.qty(), 0usize)]
                    &&& self.res.cells() == offline_cells(self.res.qty())
                    &&& !self.res.is_offline()
                },
            decreases (self.plan@.len() - self.next) * 2 + if self.active {
                0int
            } else {
                1int
            },
        {
            if self.active {
                match self.res.next_read() {
                    Some(p) => {
                        return Some((self.res.kind, p.0, p.1));
                    },
                    None => {
                        let len = self.plan.len();
                        assert(self.next < len);
                        let seg = self.plan[self.next];
                        let ghost r0 = self.rows@;
                        let ghost h0 = self.hist@;
                        push_rows(&mut self.rows, seg.0, seg.1, seg.2, &self.res.cells);
                        proof {
                            let added = self.rows@.subrange(r0.len() as int, self.rows@.len() as int);
                            assert(self.rows@ =~= r0 + added);
                            assert(keys(r0 + added) =~= keys(r0) + keys(added));
                            assert(keys(added) =~= seg_keys(seg.0, seg.1, seg.2));
                            assert(self.plan@.subrange(0, self.next + 1).drop_last() =~= self.plan@.subrange(
                                0,
                                self.next as int,
                            ));
                            assert(self.rows@.subrange(0, o.rows@.len() as int) =~= r0.subrange(
                                0,
                                o.rows@.len() as int,
                            ));
                            self.hist@ = h0.push(self.res.cells@);
                            assert(self.hist@.drop_last() =~= h0);
                            assert(added =~= seg_rows(seg, self.res.cells@));
                            assert(self.hist@.subrange(0, o.next as int) =~= h0.subrange(0, o.next as int));
                        }
                        if self.res.offline {
                            self.offline = true;
                            self.offline_from = Ghost(self.rows@.len() as int);
                            assert(self.rows@.subrange(
                                self.offline_from@,
                                self.rows@.len() as int,
                            ) =~= Seq::<Row>::empty());
                        }
                        self.active = false;
                        self.next = self.next + 1;
                    },
                }
            } else if self.next == self.plan.len() {
                return None;
            } else if self.offline {
                let seg = self.plan[self.next];
                let ghost r0 = self.rows@;
                let ghost h0 = self.hist@;
                push_offline_rows(&mut self.rows, seg.0, seg.1, seg.2);
                proof {
                    let added = self.rows@.subrange(r0.len() as int, self.rows@.len() as int);
                    assert(self.rows@ =~= r0 + added);
                    assert(keys(r0 + added) =~= keys(r0) + keys(added));
                    assert(keys(added) =~= seg_keys(seg.0, seg.1, seg.2));
                    assert(self.plan@.subrange(0, self.next + 1).drop_last() =~= self.plan@.subrange(
                        0,
                        self.next as int,
                    ));
                    assert(self.rows@.subrange(0, o.rows@.len() as int) =~= r0.subrange(
                        0,
                        o.rows@.len() as int,
                    ));
                    let f = self.offline_from@;
                    assert(self.rows@.subrange(f, self.rows@.len() as int) =~= r0.subrange(
                        f,
                        r0.len() as int,
                    ) + added);
                    self.hist@ = h0.push(offline_cells(seg.2));
                    assert(self.hist@.drop_last() =~= h0);
                    assert(added =~= seg_rows(seg, offline_cells(seg.2)));
                    assert(self.hist@.subrange(0, o.next as int) =~= h0.subrange(0, o.next as int));
                }
                self.next = self.next + 1;
            } else {
                let seg = self.plan[self.next];
                self.res = Resolver::new(seg.0, seg.1, seg.2);
                self.active = true;
            }
        }
    }

    /// Applies the outcome of the read that `next_read` named.
    pub fn feed(&mut self, read: RangeRead)
        requires
            old(self).wf(),
            old(self).awaiting(),
        ensures
            final(self).wf(),
            old(self).resolver().fed(read, &final(self).resolver()),
            final(self).plan() == old(self).plan(),
            final(self).requested() == old(self).requested(),
            final(self).groups() == old(self).groups(),
            final(self).rows() == old(self).rows(),
            final(self).history() == old(self).history(),
            final(self).current() == old(self).current(),
            final(self).is_active(),
            !final(self).is_offline(),
            final(self).is_offline() == old(self).is_offline(),
            final(self).offline_from() == old(self).offline_from(),
    {
        self.res.feed(read);
    }

    /// The rows of a finished cycle, one per requested address in request order,
    /// and whether the connection was lost (it must then be dropped).
    pub fn finish(self) -> (r: (Vec<Row>, bool))
        requires
            self.wf(),
            self.done(),
        ensures
            r.0@ == self.rows(),
            r.0@ == rows_of(self.plan(), self.history()),
            self.history().len() == self.plan().len(),
            keys(r.0@) == self.requested(),
            r.1 == self.is_offline(),
    {
        assert(self.plan@.subrange(0, self.plan@.len() as int) =~= self.plan@);
        (self.rows, self.offline)
    }
}

/// Once a cycle has lost its connection, every row it produced after that point
/// reports `Offline`, and it asks for no further read.
pub proof fn lemma_offline_cascade(p: &Poll)
    requires
        p.wf(),
        p.is_offline(),
    ensures
        0 <= p.offline_from() <= p.rows().len(),
        all_offline(p.rows().subrange(p.offline_from(), p.rows().len() as int)),
        !p.awaiting(),
{
}

} // verus!
