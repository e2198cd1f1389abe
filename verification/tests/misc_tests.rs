use lib::misc::{SVC_IsDebugger, SVC_WaitByLoop, DEBUGGER_IDENT};

#[test]
fn wait_by_loop_counts_iterations() {
    assert_eq!(SVC_WaitByLoop(5), 5);
    assert_eq!(SVC_WaitByLoop(1), 1);
    assert_eq!(SVC_WaitByLoop(0), 0);
    assert_eq!(SVC_WaitByLoop(-3), 0);
    assert_eq!(SVC_WaitByLoop(i32::MIN), 0);
    assert_eq!(SVC_WaitByLoop(100_000), 100_000);
}

#[test]
fn is_debugger_retail_unit_mirrors_the_signature() {
    // the check area mirrors the result area: the signature comes back, no debugger
    assert_eq!(SVC_IsDebugger(&[0x56A9, 0x695A, 0xA695, 0x96A5]), 0);
    assert_eq!(SVC_IsDebugger(&DEBUGGER_IDENT), 0);
}

#[test]
fn is_debugger_detects_a_separate_check_area() {
    assert_eq!(SVC_IsDebugger(&[0, 0, 0, 0]), 1);
    assert_eq!(SVC_IsDebugger(&[0x96A5, 0xA695, 0x695A, 0x56A9]), 1);
    // three of four differ
    assert_eq!(SVC_IsDebugger(&[0x56A9, 0x0000, 0x0000, 0x0000]), 1);
    assert_eq!(SVC_IsDebugger(&[0x0000, 0x0000, 0x0000, 0x96A5]), 1);
}

#[test]
fn is_debugger_needs_three_differences() {
    assert_eq!(SVC_IsDebugger(&[0x56A9, 0x695A, 0x0000, 0x0000]), 0);
    assert_eq!(SVC_IsDebugger(&[0x56A9, 0x695A, 0xA695, 0x0000]), 0);
    assert_eq!(SVC_IsDebugger(&[0x0000, 0x695A, 0x0000, 0x96A5]), 0);
}
