use kernel::{cclk, dtk, ser, tmr, up_ms, wclk, Clock};

#[test]
fn ticks_count_on_both_clocks() {
    let mut c = Clock::new();
    dtk(&mut c, 0);
    tmr(&mut c, 0);
    dtk(&mut c, 3);
    assert_eq!(wclk(&c), 2);
    assert_eq!(cclk(&c), 3);
}

#[test]
fn uptime_in_milliseconds() {
    let mut c = Clock::new();
    for _ in 0..7 {
        dtk(&mut c, 0);
    }
    assert_eq!(up_ms(&c), 7 * kernel::USEC_TICK / 1000);
}

#[test]
fn serial_line_turns_returns_into_feeds() {
    assert_eq!(ser(b'\r'), b'\n');
    assert_eq!(ser(b'x'), b'x');
}
