use blog_os::{test_runner, QemuExitCode, Testable};
use std::cell::Cell;

struct Counting<'a> {
    runs: &'a Cell<u32>,
    order: &'a Cell<u32>,
    id: u32,
}

impl<'a> Testable for Counting<'a> {
    fn run(&self) {
        self.runs.set(self.runs.get() + 1);
        self.order.set(self.order.get() * 10 + self.id);
    }
}

#[test]
fn exit_codes() {
    assert_eq!(QemuExitCode::Success.code(), 0x10);
    assert_eq!(QemuExitCode::Failed.code(), 0x11);
}

#[test]
fn runner_runs_every_test_in_order() {
    let runs = Cell::new(0);
    let order = Cell::new(0);
    let a = Counting { runs: &runs, order: &order, id: 1 };
    let b = Counting { runs: &runs, order: &order, id: 2 };
    let c = Counting { runs: &runs, order: &order, id: 3 };
    let code = test_runner(&[&a, &b, &c]);
    assert_eq!(code, QemuExitCode::Success);
    assert_eq!(runs.get(), 3);
    assert_eq!(order.get(), 123);
}

#[test]
fn runner_with_no_tests_succeeds() {
    assert_eq!(test_runner(&[]), QemuExitCode::Success);
}

#[test]
fn trivial_assertion() {
    assert_eq!(1, 1);
}
