use mbpoll::modbus::{
    contiguous_segments, ok_cell, offline_rows, Cell, CellErr, Poll, RangeRead, RegType, Resolver,
    Row, ILLEGAL_DATA_ADDRESS,
};

fn run<F: FnMut(RegType, u16, u16) -> RangeRead>(
    reqs: &[(RegType, Vec<u16>)],
    mut device: F,
) -> (Vec<Row>, bool, usize) {
    let mut p = Poll::new(reqs);
    let mut n = 0;
    while let Some((ty, s, q)) = p.next_read() {
        n += 1;
        p.feed(device(ty, s, q));
    }
    let (rows, off) = p.finish();
    (rows, off, n)
}

fn values(s: u16, q: u16) -> RangeRead {
    RangeRead::Values((s..s + q).map(|a| a.wrapping_mul(10)).collect())
}

fn value(raw: u16) -> Cell {
    Cell::Value { raw, bool: None }
}

#[test]
fn segments_example() {
    let segs = contiguous_segments(&[1, 2, 3, 5, 6, 130, 131], 125);
    assert_eq!(segs, vec![(1, 3), (5, 2), (130, 2)]);
}

#[test]
fn segments_cap_and_edges() {
    assert_eq!(contiguous_segments(&[], 125), vec![]);
    assert_eq!(contiguous_segments(&[1, 2, 3, 4, 5], 2), vec![(1, 2), (3, 2), (5, 1)]);
    assert_eq!(contiguous_segments(&[65534, 65535], 125), vec![(65534, 2)]);
    let all: Vec<u16> = (0..300).collect();
    assert_eq!(contiguous_segments(&all, 125), vec![(0, 125), (125, 125), (250, 50)]);
}

#[test]
fn kind_catalog() {
    assert_eq!(RegType::Holding.short(), "HR");
    assert_eq!(RegType::Input.short(), "IR");
    assert_eq!(RegType::Coils.short(), "CO");
    assert_eq!(RegType::Discrete.short(), "DI");
    assert_eq!(RegType::Holding.max_qty(), 125);
    assert_eq!(RegType::Input.max_qty(), 125);
    assert_eq!(RegType::Coils.max_qty(), 2000);
    assert_eq!(RegType::Discrete.max_qty(), 2000);
}

#[test]
fn boolean_derivation() {
    assert_eq!(ok_cell(RegType::Coils, 1), Cell::Value { raw: 1, bool: Some(true) });
    assert_eq!(ok_cell(RegType::Discrete, 0), Cell::Value { raw: 0, bool: Some(false) });
    assert_eq!(ok_cell(RegType::Holding, 5), Cell::Value { raw: 5, bool: None });
    assert_eq!(ok_cell(RegType::Input, 0), Cell::Value { raw: 0, bool: None });
}

#[test]
fn bisection_isolates_one_address() {
    let mut r = Resolver::new(RegType::Holding, 100, 4);
    let mut reads = 0;
    while let Some((s, q)) = r.next_read() {
        reads += 1;
        let bad = s <= 102 && 102 < s + q;
        r.feed(if bad { RangeRead::Exception(ILLEGAL_DATA_ADDRESS) } else { values(s, q) });
    }
    let (cells, off) = r.finish();
    assert!(!off);
    assert_eq!(
        cells,
        vec![value(1000), value(1010), Cell::Failure(CellErr::NotAvailable), value(1030)]
    );
    assert_eq!(reads, 5);
}

#[test]
fn bisection_alternating_addresses() {
    let mut r = Resolver::new(RegType::Coils, 0, 8);
    while let Some((s, q)) = r.next_read() {
        let bad = (s..s + q).any(|a| a % 2 == 1);
        r.feed(if bad { RangeRead::Exception(ILLEGAL_DATA_ADDRESS) } else { values(s, q) });
    }
    let (cells, _) = r.finish();
    for (i, c) in cells.iter().enumerate() {
        if i % 2 == 1 {
            assert_eq!(*c, Cell::Failure(CellErr::NotAvailable));
        } else {
            let raw = (i as u16) * 10;
            assert_eq!(*c, Cell::Value { raw, bool: Some(raw != 0) });
        }
    }
}

#[test]
fn other_exception_fills_range() {
    let mut r = Resolver::new(RegType::Input, 10, 3);
    let (s, q) = r.next_read().unwrap();
    assert_eq!((s, q), (10, 3));
    r.feed(RangeRead::Exception(4));
    assert!(r.next_read().is_none());
    let (cells, off) = r.finish();
    assert!(!off);
    assert_eq!(cells, vec![Cell::Failure(CellErr::ModbusException(4)); 3]);
}

#[test]
fn end_to_end_holding() {
    let reqs = vec![(RegType::Holding, vec![0, 1, 2, 200])];
    let (rows, off, _) = run(&reqs, |_, s, q| {
        if (s, q) == (0, 3) {
            RangeRead::Values(vec![10, 20, 30])
        } else {
            RangeRead::Exception(ILLEGAL_DATA_ADDRESS)
        }
    });
    assert!(!off);
    let h = RegType::Holding;
    assert_eq!(
        rows,
        vec![
            Row { address: 0, reg_type: h, cell: value(10) },
            Row { address: 1, reg_type: h, cell: value(20) },
            Row { address: 2, reg_type: h, cell: value(30) },
            Row { address: 200, reg_type: h, cell: Cell::Failure(CellErr::NotAvailable) },
        ]
    );
}

#[test]
fn offline_cascades_to_rest_of_cycle() {
    let reqs = vec![
        (RegType::Holding, vec![1, 2, 10, 11]),
        (RegType::Coils, vec![5]),
        (RegType::Input, vec![]),
    ];
    let (rows, off, reads) = run(&reqs, |_, s, q| {
        if s == 10 {
            RangeRead::Offline
        } else {
            values(s, q)
        }
    });
    assert!(off);
    assert_eq!(reads, 2);
    assert_eq!(rows.len(), 5);
    assert_eq!(rows[0].cell, value(10));
    assert_eq!(rows[1].cell, value(20));
    for r in &rows[2..] {
        assert_eq!(r.cell, Cell::Failure(CellErr::Offline));
    }
    assert_eq!((rows[4].reg_type, rows[4].address), (RegType::Coils, 5));
}

#[test]
fn timeout_stays_local() {
    let reqs = vec![(RegType::Holding, vec![1, 2, 10, 11])];
    let (rows, off, reads) = run(&reqs, |_, s, q| {
        if s == 1 {
            RangeRead::Timeout
        } else {
            values(s, q)
        }
    });
    assert!(!off);
    assert_eq!(reads, 2);
    assert_eq!(rows[0].cell, Cell::Failure(CellErr::Timeout));
    assert_eq!(rows[1].cell, Cell::Failure(CellErr::Timeout));
    assert_eq!(rows[2].cell, value(100));
    assert_eq!(rows[3].cell, value(110));
}

#[test]
fn repeated_reads_agree() {
    let reqs = vec![(RegType::Discrete, vec![3, 4, 9])];
    let a = run(&reqs, |_, s, q| values(s, q));
    let b = run(&reqs, |_, s, q| values(s, q));
    assert_eq!(a.0, b.0);
}

#[test]
fn offline_rows_cover_every_address() {
    let reqs = vec![(RegType::Input, vec![7, 8]), (RegType::Coils, vec![1])];
    let rows = offline_rows(&reqs);
    assert_eq!(rows.len(), 3);
    assert_eq!((rows[2].reg_type, rows[2].address), (RegType::Coils, 1));
    assert!(rows.iter().all(|r| r.cell == Cell::Failure(CellErr::Offline)));
}

#[test]
fn end_to_end_reads_follow_segments() {
    let reqs = vec![(RegType::Holding, vec![0, 1, 2, 200])];
    let mut seen = Vec::new();
    let (_, off, _) = run(&reqs, |ty, s, q| {
        seen.push((ty, s, q));
        if (s, q) == (0, 3) {
            RangeRead::Values(vec![10, 20, 30])
        } else {
            RangeRead::Exception(ILLEGAL_DATA_ADDRESS)
        }
    });
    assert!(!off);
    assert_eq!(seen, vec![(RegType::Holding, 0, 3), (RegType::Holding, 200, 1)]);
}

#[test]
fn single_bad_address_in_large_range() {
    let mut r = Resolver::new(RegType::Holding, 0, 125);
    let mut reads = 0;
    while let Some((s, q)) = r.next_read() {
        reads += 1;
        let bad = s <= 77 && 77 < s + q;
        r.feed(if bad { RangeRead::Exception(ILLEGAL_DATA_ADDRESS) } else { values(s, q) });
    }
    let (cells, _) = r.finish();
    assert_eq!(cells[77], Cell::Failure(CellErr::NotAvailable));
    assert!(reads <= 1 + 2 * 7);
}
