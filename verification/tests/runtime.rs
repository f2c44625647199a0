use shared_slab::clock::{seconds_or_zero, time};
use shared_slab::runtime::{WasiErrno, WasiThreadError, WasiTtyState};

#[test]
fn thread_errors_map_to_errno() {
    assert_eq!(WasiErrno::from(WasiThreadError::Unsupported), WasiErrno::Notsup);
    assert_eq!(WasiErrno::from(WasiThreadError::MethodNotFound), WasiErrno::Inval);
    assert_eq!(WasiErrno::from(WasiThreadError::MemoryCreateFailed), WasiErrno::Fault);
    assert_eq!(WasiErrno::from(WasiThreadError::InvalidWasmContext), WasiErrno::Noexec);
}

#[test]
fn thread_errors_have_messages() {
    assert_eq!(WasiThreadError::Unsupported.to_string(), "Multithreading is not supported");
    assert_eq!(
        WasiThreadError::MethodNotFound.to_string(),
        "The method named is not an exported function"
    );
    assert_eq!(
        WasiThreadError::MemoryCreateFailed.message(),
        "Failed to create the requested memory"
    );
    assert_eq!(WasiThreadError::InvalidWasmContext.message(), "WASM context is invalid");
}

#[test]
fn default_tty_state() {
    let tty = WasiTtyState::default();
    assert_eq!(
        tty,
        WasiTtyState {
            cols: 80,
            rows: 25,
            width: 800,
            height: 600,
            stdin_tty: false,
            stdout_tty: false,
            stderr_tty: false,
            echo: true,
            line_buffered: true,
        }
    );
    let mut wide = tty.clone();
    wide.cols = 132;
    assert!(tty < wide);
}

#[test]
fn time_is_after_the_year_2020() {
    let now = time();
    assert!(now > 1_577_836_800);
    assert!(time() >= now);
}

#[test]
fn reading_before_1970_is_reported_as_zero() {
    assert_eq!(seconds_or_zero(None), 0);
    assert_eq!(seconds_or_zero(Some(0)), 0);
    assert_eq!(seconds_or_zero(Some(1_577_836_800)), 1_577_836_800);
    assert_eq!(seconds_or_zero(Some(u64::MAX)), u64::MAX);
}
