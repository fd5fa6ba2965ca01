use mbpoll::modbus::{Cell, CellErr, RegType, Row};
use mbpoll::text::{dec_text, err_text, row_texts};

#[test]
fn error_texts() {
    assert_eq!(err_text(&CellErr::Timeout), "TIMEOUT");
    assert_eq!(err_text(&CellErr::Offline), "OFFLINE");
    assert_eq!(err_text(&CellErr::NotAvailable), "N/A");
    assert_eq!(err_text(&CellErr::ModbusException(4)), "ERR:4");
    assert_eq!(err_text(&CellErr::ModbusException(255)), "ERR:255");
}

#[test]
fn decimal_text() {
    assert_eq!(dec_text(0), "0");
    assert_eq!(dec_text(10), "10");
    assert_eq!(dec_text(65535), "65535");
}

#[test]
fn value_row_columns() {
    let r = Row { address: 40001, reg_type: RegType::Holding, cell: Cell::Value { raw: 0xFFFF, bool: None } };
    assert_eq!(
        row_texts(&r),
        vec!["40001", "HR", "0xFFFF", "65535", "-1", "1111111111111111", "-"]
    );
    let r = Row { address: 7, reg_type: RegType::Coils, cell: Cell::Value { raw: 1, bool: Some(true) } };
    assert_eq!(row_texts(&r), vec!["7", "CO", "0x0001", "1", "1", "0000000000000001", "true"]);
    let r = Row { address: 3, reg_type: RegType::Input, cell: Cell::Value { raw: 0x8000, bool: None } };
    assert_eq!(row_texts(&r)[4], "-32768");
    assert_eq!(row_texts(&r)[2], "0x8000");
}

#[test]
fn failure_row_columns() {
    let r = Row { address: 5, reg_type: RegType::Discrete, cell: Cell::Failure(CellErr::Offline) };
    assert_eq!(row_texts(&r), vec!["5", "DI", "OFFLINE", "OFFLINE", "OFFLINE", "OFFLINE", "OFFLINE"]);
    let r = Row { address: 5, reg_type: RegType::Holding, cell: Cell::Failure(CellErr::ModbusException(3)) };
    assert_eq!(row_texts(&r), vec!["5", "HR", "ERR:3", "ERR:3", "ERR:3", "ERR:3", "-"]);
}

#[test]
fn footer_line() {
    assert_eq!(
        mbpoll::text::footer("10.0.0.5", 502, 17, "2024-01-02 03:04:05"),
        "Host: 10.0.0.5:502 | Unit: 17 | Updated: 2024-01-02 03:04:05"
    );
}
