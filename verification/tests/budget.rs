//! The memory budget.

use glyde::budget::RamBudget;
use glyde::GlydeError;
use sysinfo::SystemExt;

const GB: u64 = 1024 * 1024 * 1024;

#[test]
fn budget_is_25_percent_of_ram_when_that_is_below_the_4gb_ceiling() {
    let budget = RamBudget::from_total_ram_bytes(8 * GB);
    assert_eq!(budget.cap_bytes(), 2 * GB);
}

#[test]
fn budget_is_capped_at_4gb_when_25_percent_of_ram_would_exceed_it() {
    let budget = RamBudget::from_total_ram_bytes(64 * GB);
    assert_eq!(budget.cap_bytes(), 4 * GB);
}

#[test]
fn budget_equals_the_4gb_ceiling_exactly_at_16gb_ram() {
    let budget = RamBudget::from_total_ram_bytes(16 * GB);
    assert_eq!(budget.cap_bytes(), 4 * GB);
}

#[test]
fn budget_is_zero_on_a_machine_reporting_zero_ram() {
    let budget = RamBudget::from_total_ram_bytes(0);
    assert_eq!(budget.cap_bytes(), 0);
}

#[test]
fn a_request_at_or_under_the_cap_is_affordable() {
    let budget = RamBudget::from_total_ram_bytes(8 * GB);
    assert!(budget.check_affordable(2 * GB).is_ok());
    assert!(budget.check_affordable(2 * GB - 1).is_ok());
}

#[test]
fn a_request_over_the_cap_is_refused_with_both_numbers_reported() {
    let budget = RamBudget::from_total_ram_bytes(8 * GB);
    let err = budget
        .check_affordable(2 * GB + 1)
        .expect_err("a request over the cap must be refused");

    let GlydeError::BudgetExceeded {
        requested_bytes,
        cap_bytes,
    } = err
    else {
        panic!("expected GlydeError::BudgetExceeded, got {err:?}");
    };
    assert_eq!(requested_bytes, 2 * GB + 1);
    assert_eq!(cap_bytes, 2 * GB);
}

#[test]
fn from_system_reflects_the_actual_host_ram() {
    let mut system = sysinfo::System::new();
    system.refresh_memory();
    let expected = RamBudget::from_total_ram_bytes(system.total_memory());

    assert_eq!(RamBudget::from_system(), expected);
}

#[test]
fn affords_agrees_with_the_check() {
    let budget = RamBudget::from_total_ram_bytes(4_000);
    assert!(budget.affords(1_000));
    assert!(!budget.affords(1_001));
}
