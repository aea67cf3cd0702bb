use stn::buf::Buf;
use stn::pump::{Dispatch, Pump, PumpEnd, PumpEvent, UdpDispatch};

#[test]
fn pump_ends_on_close_and_counts() {
    let mut p = Pump::new(1000, 0);
    assert_eq!(p.step(PumpEvent::ClientData(4), 10), None);
    assert_eq!(p.step(PumpEvent::ServerData(7), 20), None);
    assert_eq!(p.step(PumpEvent::ServerClosed, 30), Some(PumpEnd::ServerClose));
    assert_eq!(p.step(PumpEvent::ClientData(100), 40), None);
    assert_eq!((p.client_bytes, p.server_bytes), (4, 7));
    assert_eq!(p.ended, Some(PumpEnd::ServerClose));
}

#[test]
fn pump_times_out_when_idle() {
    let mut p = Pump::new(1000, 0);
    assert_eq!(p.step(PumpEvent::Tick, 999), None);
    assert_eq!(p.step(PumpEvent::ClientData(1), 999), None);
    assert_eq!(p.step(PumpEvent::Tick, 1998), None);
    assert_eq!(p.step(PumpEvent::Tick, 1999), Some(PumpEnd::Timeout));
    let mut q = Pump::new(10, 0);
    assert_eq!(q.step(PumpEvent::ClientFailed, 1), Some(PumpEnd::ClientError));
}

#[test]
fn fullcone_dispatch() {
    let mut d = UdpDispatch::new();
    assert_eq!(d.dispatch(2), Dispatch::Open(0));
    assert_eq!(d.dispatch(5), Dispatch::Open(1));
    assert_eq!(d.dispatch(2), Dispatch::Existing(0));
    assert_eq!(d.dispatch(5), Dispatch::Existing(1));
    d.clear();
    assert_eq!(d.dispatch(2), Dispatch::Open(2));
}

#[test]
fn buf_fill_and_drain() {
    let mut buf = Buf::new(10);
    assert_eq!(buf.len(), 0);
    assert_eq!(buf.write_unused(&[1, 2, 3]), 3);
    assert_eq!(buf.get_used(), &[1, 2, 3]);
    buf.drain(1, 3);
    assert_eq!(buf.get_used(), &[1]);
    assert_eq!(buf.write_unused(&[4; 20]), 9);
    assert_eq!(buf.len(), 10);
    buf.get_used_mut()[0] = 9;
    assert_eq!(buf.get_used()[0], 9);
    buf.drain(0, 10);
    assert_eq!(buf.get_used(), &[] as &[u8]);
    buf.add_len(2);
    assert_eq!(buf.len(), 2);
}

#[test]
fn buf_t1() {
    let mut buf = Buf::new(10);

    let nwrite = buf.write_unused(&[1, 1, 1]);
    assert_eq!(nwrite, 3);
    assert!(buf.get_used() == &[1, 1, 1]);

    buf.drain(1, 3);
    assert!(buf.get_used() == &[1]);

    // Three more bytes are written after the one left, so four are in use:
    // `[1]` alone here would contradict `add_len` and `get_used`, which
    // count the bytes written.
    let nwrite = buf.write_unused(&[1, 1, 1]);
    assert_eq!(nwrite, 3);
    assert!(buf.get_used() == &[1, 1, 1, 1]);

    let n = buf.len();
    buf.drain(0, n);
    assert!(buf.get_used() == &[] as &[u8]);
}
