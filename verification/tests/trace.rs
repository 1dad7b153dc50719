use kernel_std::log::Location;
use kernel_std::point::{decimal_text, trace, write_trace, Manager, PointFrame};

const HERE: Location = Location { module: "kernel::memory", file: "src/memory/mod.rs", line: 42 };
const THERE: Location = Location { module: "kernel", file: "src/kernel.rs", line: 7 };

#[test]
fn decimal_text_writes_digits() {
    assert_eq!(decimal_text(0), "0");
    assert_eq!(decimal_text(9), "9");
    assert_eq!(decimal_text(10), "10");
    assert_eq!(decimal_text(1234), "1234");
    assert_eq!(decimal_text(u32::MAX), "4294967295");
}

#[test]
fn trace_report_lists_points_in_order() {
    let mut manager = Manager::new();
    let a = manager.trace(&HERE, "allocating");
    let b = manager.trace(&THERE, "booting");
    assert_eq!(a.id(), 0);
    assert_eq!(b.id(), 1);
    assert_eq!(
        manager.report(),
        "Trace points:\nkernel::memory at src/memory/mod.rs(42): allocating\nkernel at src/kernel.rs(7): booting"
    );
}

#[test]
fn untrace_undoes_trace() {
    let mut manager = Manager::new();
    let _a = manager.trace(&HERE, "outer");
    let before = manager.report();
    let b = manager.trace(&THERE, "inner");
    manager.untrace(b.id());
    assert_eq!(manager.report(), before);
}

#[test]
fn untrace_takes_off_later_points() {
    let mut manager = Manager::new();
    let a = manager.trace(&HERE, "first");
    let _b = manager.trace(&HERE, "second");
    let _c = manager.trace(&HERE, "third");
    manager.untrace(a.id());
    assert_eq!(manager.report(), "Trace points:");
    // ids keep rising after an untrace
    let d = manager.trace(&THERE, "fourth");
    assert_eq!(d.id(), 3);
}

#[test]
fn frame_release_untraces_all() {
    let mut manager = Manager::new();
    let _keep = manager.trace(&THERE, "kept");
    let mut frame = PointFrame::new_add(&mut manager, &HERE, "one");
    let p = manager.trace(&HERE, "two");
    frame.add(p);
    frame.release(&mut manager);
    assert_eq!(manager.report(), "Trace points:\nkernel at src/kernel.rs(7): kept");
}

#[test]
fn empty_frame_release_changes_nothing() {
    let mut manager = Manager::new();
    let _keep = manager.trace(&THERE, "kept");
    PointFrame::new().release(&mut manager);
    assert_eq!(manager.report(), "Trace points:\nkernel at src/kernel.rs(7): kept");
}

#[test]
fn trace_starts_manager_and_write_trace_reports() {
    let mut manager: Option<Manager> = None;
    assert!(write_trace(&manager).is_err());
    let p = trace(&mut manager, &HERE, "start");
    assert_eq!(p.id(), 0);
    assert_eq!(
        write_trace(&manager),
        Ok(String::from("Trace points:\nkernel::memory at src/memory/mod.rs(42): start"))
    );
    let q = trace(&mut manager, &THERE, "next");
    assert_eq!(q.id(), 1);
}
