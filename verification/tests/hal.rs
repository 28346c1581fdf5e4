//! The hardware-adjacent state machines: interrupt counters and
//! dispatch, the interrupt-statistics file, the console line
//! discipline, and timer tick conversion.

use axfs_root::console::{write_bytes, read_bytes, SerialPort, TtyDev};
use axfs_root::irq::{
    dispatch_irq_common, new_irq_handler_table, InterruptFile, IrqCounters, u64_to_dec,
    interrupts_content, MAX_IRQ_COUNT,
};
use axfs_root::time::TimeConfig;
use axfs_root::types::{FsError, NodeType};

#[test]
fn irq_counters_increment_and_report() {
    let mut c = IrqCounters::new();
    assert_eq!(c.get_all_irq_counts().len(), MAX_IRQ_COUNT);
    c.increment_irq_count(5);
    c.increment_irq_count(5);
    c.increment_irq_count(7);
    // out-of-range lines are ignored
    c.increment_irq_count(MAX_IRQ_COUNT + 10);
    let all = c.get_all_irq_counts();
    assert_eq!(all[5], 2);
    assert_eq!(all[7], 1);
    assert_eq!(all[0], 0);
}

#[test]
fn irq_dispatch_through_the_table() {
    let table = new_irq_handler_table();
    // nothing registered: not handled
    assert!(!dispatch_irq_common(&table, 3));
    // out of range: never handled
    assert!(!dispatch_irq_common(&table, MAX_IRQ_COUNT + 1));
    // register a real handler through the outside crate, then dispatch
    fn noop_handler() {}
    assert!(table.register_handler(3, noop_handler));
    assert!(dispatch_irq_common(&table, 3));
}

#[test]
fn decimal_rendering() {
    assert_eq!(u64_to_dec(0), b"0");
    assert_eq!(u64_to_dec(7), b"7");
    assert_eq!(u64_to_dec(42), b"42");
    assert_eq!(u64_to_dec(1000), b"1000");
    assert_eq!(u64_to_dec(u64::MAX), b"18446744073709551615");
}

#[test]
fn interrupts_file_content() {
    let mut c = IrqCounters::new();
    assert_eq!(interrupts_content(&c.counts), b"No IRQ activity detected\n");
    for _ in 0..3 {
        c.increment_irq_count(5);
    }
    c.increment_irq_count(11);
    assert_eq!(interrupts_content(&c.counts), b"5:\t\t3\n11:\t\t1\n");
}

#[test]
fn interrupts_file_read_window() {
    let f = InterruptFile;
    let mut c = IrqCounters::new();
    for _ in 0..3 {
        c.increment_irq_count(5);
    }
    let full = f.read_at(&c, 0, 4096).unwrap();
    assert_eq!(full, b"5:\t\t3\n");
    // a window in the middle
    let mid = f.read_at(&c, 2, 2).unwrap();
    assert_eq!(mid, b"\t\t");
    // a read beyond the end returns nothing
    let beyond = f.read_at(&c, 100, 16).unwrap();
    assert_eq!(beyond, b"");
    // the file is read-only and cannot be resized
    assert_eq!(f.write_at(0, b"x"), Err(FsError::PermissionDenied));
    assert_eq!(f.truncate(0), Err(FsError::Unsupported));
    assert_eq!(f.get_attr().unwrap().perm, 0o444);
    assert_eq!(f.get_attr().unwrap().ty, NodeType::File);
}

#[test]
fn console_line_discipline() {
    let mut port = SerialPort::new();
    write_bytes(&mut port, b"hi\nthere\n");
    assert_eq!(port.tx, b"hi\r\nthere\r\n");
    write_bytes(&mut port, b"!");
    assert_eq!(port.tx, b"hi\r\nthere\r\n!");
}

#[test]
fn console_reads_drain_pending_input() {
    let mut port = SerialPort::new();
    port.rx = b"abcdef".to_vec();
    let mut buf = vec![0u8; 4];
    let n = read_bytes(&mut port, &mut buf);
    assert_eq!(n, 4);
    assert_eq!(buf, b"abcd");
    assert_eq!(port.rx, b"ef");
    // a larger buffer takes what is left and keeps its tail
    let mut buf2 = vec![9u8; 4];
    let n2 = read_bytes(&mut port, &mut buf2);
    assert_eq!(n2, 2);
    assert_eq!(buf2, b"ef\x09\x09");
    assert_eq!(port.rx, b"");
}

#[test]
fn tty_device_node() {
    let tty = TtyDev;
    assert_eq!(tty.get_attr().unwrap().ty, NodeType::CharDevice);
    let mut port = SerialPort::new();
    assert_eq!(tty.write_at(&mut port, 0, b"ok\n"), Ok(3));
    assert_eq!(port.tx, b"ok\r\n");
    port.rx = b"xy".to_vec();
    let mut buf = vec![0u8; 8];
    assert_eq!(tty.read_at(&mut port, 0, &mut buf), Ok(2));
    assert_eq!(&buf[..2], b"xy");
    assert_eq!(tty.truncate(0), Ok(()));
}

#[test]
fn tick_conversion() {
    let t = TimeConfig::new(10);
    assert_eq!(t.ticks_to_nanos(25), 250);
    assert_eq!(t.nanos_to_ticks(250), 25);
    assert_eq!(t.nanos_to_ticks(259), 25);
    // a past deadline fires immediately
    assert_eq!(t.oneshot_timer_ticks(100, 100), 1);
    assert_eq!(t.oneshot_timer_ticks(50, 100), 1);
    // a future one after the corresponding ticks
    assert_eq!(t.oneshot_timer_ticks(350, 100), 25);
}
