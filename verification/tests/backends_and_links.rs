use moredata::audio::{merge_diag, AudioBackend, BackendError, NullBackend};
use moredata::event::{EventKind, EventWindow};
use moredata::link::{refresh, Mailbox};
use moredata::pipewire::{PipeWireBackend, PipeWireConfig, PipeWireEvent, PipeWireEventLoop};
use moredata::plugin::{builtin_catalog, PluginFormat, PluginInfo, RealtimeSafety};
use moredata::report::{Diagnostics, StatusReport, VERSION};

#[test]
fn null_backend_status() {
    let b = NullBackend;
    let s = b.status();
    assert_eq!(b.name(), "null");
    assert_eq!(s.backend, "null");
    assert!(!s.pipewire);
}

#[test]
fn config_defaults_are_sane() {
    let c = PipeWireConfig::default();
    assert_eq!(c.sample_rate, 48000);
    assert_eq!(c.channels, 2);
}

#[test]
fn unsupported_without_feature() {
    assert!(matches!(
        PipeWireBackend::new(PipeWireConfig::default()),
        Err(BackendError::Unsupported(_))
    ));
}

#[test]
fn natives_are_headless() {
    for p in builtin_catalog() {
        assert!(p.compatible());
        assert_eq!(p.format, PluginFormat::Native);
    }
}

#[test]
fn mailbox_roundtrip() {
    let mut m: Mailbox<u64> = Mailbox::new();
    assert_eq!(m.pop(), None);
    m.push(7).unwrap();
    assert!(m.push(8).is_err());
    assert_eq!(m.pop(), Some(7));
    assert_eq!(m.pop(), None);
}

#[test]
fn occupied_mailbox_hands_the_value_back() {
    let mut m: Mailbox<String> = Mailbox::default();
    m.push("first".to_string()).unwrap();
    assert_eq!(m.push("second".to_string()), Err("second".to_string()));
    assert_eq!(m.pop(), Some("first".to_string()));
}

#[test]
fn refresh_swaps_and_retires() {
    let mut inbox: Mailbox<u32> = Mailbox::new();
    let mut retire: Mailbox<u32> = Mailbox::new();
    let mut current = Some(1u32);
    refresh(&mut inbox, &mut retire, &mut current);
    assert_eq!(current, Some(1));
    assert_eq!(retire.pop(), None);

    inbox.push(2).unwrap();
    refresh(&mut inbox, &mut retire, &mut current);
    assert_eq!(current, Some(2));
    assert_eq!(inbox.pop(), None);
    assert_eq!(retire.pop(), Some(1));

    retire.push(9).unwrap();
    inbox.push(3).unwrap();
    refresh(&mut inbox, &mut retire, &mut current);
    assert_eq!(current, Some(3));
    assert_eq!(retire.pop(), Some(9));

    let mut none: Option<u32> = None;
    inbox.push(4).unwrap();
    refresh(&mut inbox, &mut retire, &mut none);
    assert_eq!(none, Some(4));
    assert_eq!(retire.pop(), None);
}

#[test]
fn incompatible_plugins() {
    let mut p = PluginInfo::native("x", "X");
    assert_eq!(p.id, "x");
    assert_eq!(p.latency_frames, 0);
    p.gui_required = true;
    assert!(!p.compatible());
    let mut q = PluginInfo::native("y", "Y");
    q.realtime = RealtimeSafety::Unsafe;
    assert!(!q.compatible());
    q.realtime = RealtimeSafety::Unknown;
    assert!(q.compatible());
    let names: Vec<String> = builtin_catalog().into_iter().map(|p| p.id).collect();
    assert_eq!(names, vec!["oscillator", "gain", "mixer", "output"]);
}

#[test]
fn pipewire_events_reach_the_window() {
    let mut lp = PipeWireEventLoop::new();
    lp.start();
    lp.push_event(PipeWireEvent::XRun);
    lp.push_event(PipeWireEvent::SampleRateChanged { rate: 44_100 });
    lp.push_event(PipeWireEvent::DeviceConnected);
    let mut buf = [None; 2];
    let mut window = EventWindow::new(&mut buf);
    lp.drain_to_window(&mut window);
    assert_eq!(window.len(), 2);
    let ev = window.next_pending().unwrap();
    assert_eq!(ev.frame, 0);
    assert_eq!(ev.node.0, 0);
    assert_eq!(ev.kind, EventKind::Trigger);
    lp.stop();
    let mut buf2 = [None; 4];
    let mut window2 = EventWindow::new(&mut buf2);
    lp.drain_to_window(&mut window2);
    assert_eq!(window2.len(), 1);
    let mut buf3 = [None; 4];
    let mut window3 = EventWindow::new(&mut buf3);
    lp.drain_to_window(&mut window3);
    assert_eq!(window3.len(), 0);
}

#[test]
fn pipewire_queue_drops_past_capacity() {
    let mut lp = PipeWireEventLoop::default();
    for _ in 0..70 {
        lp.push_event(PipeWireEvent::LatencyChanged { nsec: 5 });
    }
    let mut buf = [None; 128];
    let mut window = EventWindow::new(&mut buf);
    lp.drain_to_window(&mut window);
    assert_eq!(window.len(), 64);
}

#[test]
fn status_and_diagnostics_records() {
    let s = StatusReport::current();
    assert_eq!(s.engine, "moredata-core");
    assert_eq!(s.version, VERSION);
    assert_eq!(s.phase, "prototype");
    assert!(!s.pd_coupled);
    let d = Diagnostics::default();
    assert_eq!(d.backend, "none");
    assert_eq!(d.blocks, 0);
    let mut d2 = Diagnostics::default();
    d2.blocks = 12;
    d2.xruns = 2;
    let m = merge_diag(d2, "cpal");
    assert_eq!(m.backend, "cpal");
    assert_eq!(m.blocks, 12);
    assert_eq!(m.xruns, 2);
}

#[test]
fn pipewire_status_reports_config() {
    let b = PipeWireBackend::new(PipeWireConfig::default());
    match b {
        Err(BackendError::Unsupported(m)) => assert!(m.contains("pipewire-system")),
        _ => panic!("expected unsupported"),
    }
}

#[test]
fn backend_error_messages() {
    assert_eq!(BackendError::NoDevice.message(), "no audio device");
    assert_eq!(BackendError::Device("busy".to_string()).message(), "device: busy");
    assert_eq!(BackendError::Io("disk".to_string()).message(), "io: disk");
    assert_eq!(BackendError::Unsupported("F64".to_string()).message(), "unsupported: F64");
}
