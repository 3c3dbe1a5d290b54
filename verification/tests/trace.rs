use vzglyd_kernel::string_map::StrMap;
use vzglyd_kernel::trace::{phase_code, EventPhase, TraceRecorder, DEFAULT_PID};

fn args_of(pairs: &[(&str, &str)]) -> StrMap {
    let mut m = StrMap::new();
    for (k, v) in pairs {
        m.insert(k.to_string(), v.to_string());
    }
    m
}

#[test]
fn new_recorder_names_process_and_session() {
    let recorder = TraceRecorder::new("native", "test");
    let events = recorder.events();
    assert_eq!(events.len(), 1);
    assert_eq!(events[0].name, "process_name");
    assert_eq!(events[0].cat, "__metadata");
    assert_eq!(events[0].ph, EventPhase::Metadata);
    assert_eq!(events[0].tid, 0);
    assert_eq!(events[0].pid, DEFAULT_PID);
    assert_eq!(events[0].args.get("name"), Some("vzglyd-native"));
    assert_eq!(recorder.metadata().get("host_kind"), Some("native"));
    assert_eq!(recorder.metadata().get("label"), Some("test"));
    assert_eq!(recorder.host_kind(), "native");
    assert_eq!(recorder.label(), "test");
}

#[test]
fn threads_get_stable_ids_announced_once() {
    let mut recorder = TraceRecorder::new("native", "test");
    recorder.instant_at(5, "main", "frame", "tick", StrMap::new());
    recorder.instant_at(7, "audio", "mix", "buffer", StrMap::new());
    recorder.instant_at(9, "main", "frame", "tock", args_of(&[("k", "v")]));
    let events = recorder.events();
    assert_eq!(events.len(), 6);
    assert_eq!(events[1].name, "thread_name");
    assert_eq!(events[1].tid, 1);
    assert_eq!(events[1].args.get("name"), Some("main"));
    assert_eq!(events[2].ph, EventPhase::Instant);
    assert_eq!(events[2].tid, 1);
    assert_eq!(events[2].ts, 5);
    assert_eq!(events[2].dur, None);
    assert_eq!(events[3].name, "thread_name");
    assert_eq!(events[3].tid, 2);
    assert_eq!(events[4].name, "buffer");
    assert_eq!(events[4].cat, "mix");
    assert_eq!(events[4].tid, 2);
    assert_eq!(events[5].name, "tock");
    assert_eq!(events[5].tid, 1);
    assert_eq!(events[5].ts, 9);
    assert_eq!(events[5].args.get("k"), Some("v"));
}

#[test]
fn guest_spans_pair_begin_and_end() {
    let mut recorder = TraceRecorder::new("web", "run");
    let a = recorder.guest_span_start_at(10, "slide", "guest", "load", StrMap::new());
    let b = recorder.guest_span_start_at(11, "slide", "guest", "draw", StrMap::new());
    assert_eq!(a, 1);
    assert_eq!(b, 2);
    recorder.guest_span_end_at(20, a, Some("ok".to_string()), args_of(&[("n", "3")]));
    let events = recorder.events();
    assert_eq!(events.len(), 5);
    let end = &events[4];
    assert_eq!(end.ph, EventPhase::End);
    assert_eq!(end.name, "load");
    assert_eq!(end.cat, "guest");
    assert_eq!(end.tid, 1);
    assert_eq!(end.ts, 20);
    assert_eq!(end.args.get("status"), Some("ok"));
    assert_eq!(end.args.get("n"), Some("3"));
    assert_eq!(events[2].ph, EventPhase::Begin);
    assert_eq!(events[2].ts, 10);
}

#[test]
fn ending_unknown_or_ended_span_changes_nothing() {
    let mut recorder = TraceRecorder::new("web", "run");
    let a = recorder.guest_span_start_at(1, "slide", "guest", "load", StrMap::new());
    recorder.guest_span_end_at(2, a, None, StrMap::new());
    let n = recorder.events().len();
    recorder.guest_span_end_at(3, a, None, StrMap::new());
    recorder.guest_span_end_at(3, 99, Some("x".to_string()), StrMap::new());
    assert_eq!(recorder.events().len(), n);
    assert_eq!(recorder.events()[n - 1].args.get("status"), None);
}

#[test]
fn span_ids_are_not_reused() {
    let mut recorder = TraceRecorder::new("web", "run");
    let a = recorder.guest_span_start(  "t", "c", "n", StrMap::new());
    recorder.guest_span_end(a, None, StrMap::new());
    let b = recorder.guest_span_start("t", "c", "n", StrMap::new());
    assert!(b > a);
}

#[test]
fn scoped_span_records_complete_event() {
    let mut recorder = TraceRecorder::new("native", "test");
    let mut span = recorder.scoped("main", "frame", "render_frame");
    span.add_attr("slide", "air_quality");
    span.finish(&mut recorder);
    let events = recorder.events();
    assert_eq!(events.len(), 3);
    let x = &events[2];
    assert_eq!(x.name, "render_frame");
    assert_eq!(x.cat, "frame");
    assert_eq!(x.ph, EventPhase::Complete);
    assert_eq!(x.tid, 1);
    assert!(x.dur.is_some());
    assert_eq!(x.args.get("slide"), Some("air_quality"));
}

#[test]
fn scoped_with_args_keeps_initial_args() {
    let mut recorder = TraceRecorder::new("native", "test");
    let mut span = recorder.scoped_with_args("io", "net", "fetch", args_of(&[("url", "a")]));
    span.add_attr("url", "b");
    span.add_attr("code", "200");
    span.finish(&mut recorder);
    let x = &recorder.events()[2];
    assert_eq!(x.args.get("url"), Some("b"));
    assert_eq!(x.args.get("code"), Some("200"));
}

#[test]
fn instant_now_and_metadata() {
    let mut recorder = TraceRecorder::new("native", "test");
    recorder.instant("main", "frame", "now", StrMap::new());
    recorder.set_metadata("slide", "clock");
    recorder.set_metadata("label", "other");
    assert_eq!(recorder.events().len(), 3);
    assert_eq!(recorder.events()[2].name, "now");
    assert_eq!(recorder.metadata().get("slide"), Some("clock"));
    assert_eq!(recorder.metadata().get("label"), Some("other"));
    assert_eq!(recorder.metadata().len(), 3);
}

#[test]
fn event_log_only_grows() {
    let mut recorder = TraceRecorder::new("native", "test");
    recorder.instant_at(1, "main", "c", "first", StrMap::new());
    let before: Vec<(String, u64, u32)> =
        recorder.events().iter().map(|e| (e.name.clone(), e.ts, e.tid)).collect();
    let id = recorder.guest_span_start_at(2, "worker", "c", "span", StrMap::new());
    recorder.set_metadata("k", "v");
    recorder.guest_span_end_at(3, id, None, StrMap::new());
    let after: Vec<(String, u64, u32)> =
        recorder.events().iter().map(|e| (e.name.clone(), e.ts, e.tid)).collect();
    assert!(after.len() > before.len());
    assert_eq!(&after[..before.len()], &before[..]);
}

#[test]
fn readiness_checks_on_fresh_recorder() {
    let recorder = TraceRecorder::new("native", "test");
    assert!(recorder.thread_ready("main"));
    assert!(recorder.span_ready("main"));
}

#[test]
fn phase_codes_are_trace_letters() {
    assert_eq!(phase_code(EventPhase::Metadata), "M");
    assert_eq!(phase_code(EventPhase::Instant), "i");
    assert_eq!(phase_code(EventPhase::Begin), "B");
    assert_eq!(phase_code(EventPhase::End), "E");
    assert_eq!(phase_code(EventPhase::Complete), "X");
}

#[test]
fn guard_flush_records_once() {
    let mut recorder = TraceRecorder::new("native", "test");
    let mut span = recorder.scoped("main", "frame", "render_frame");
    span.flush(&mut recorder);
    let n = recorder.events().len();
    span.flush(&mut recorder);
    span.finish(&mut recorder);
    assert_eq!(recorder.events().len(), n);
    assert_eq!(recorder.events()[n - 1].ph, EventPhase::Complete);
}

#[test]
fn every_event_has_trace_shape() {
    let mut recorder = TraceRecorder::new("native", "test");
    recorder.instant_at(4, "a", "c", "i", StrMap::new());
    let id = recorder.guest_span_start_at(5, "b", "c", "s", StrMap::new());
    recorder.guest_span_end_at(6, id, None, StrMap::new());
    recorder.scoped("a", "c", "x").finish(&mut recorder);
    for e in recorder.events() {
        assert_eq!(e.pid, DEFAULT_PID);
        if e.ph == EventPhase::Metadata {
            assert_eq!(e.ts, 0);
            assert_eq!(e.dur, None);
        }
        if e.dur.is_some() {
            assert_eq!(e.ph, EventPhase::Complete);
        }
    }
}

#[test]
fn scoped_with_args_at_keeps_start_time() {
    let mut recorder = TraceRecorder::new("native", "test");
    let span = TraceRecorder::scoped_with_args_at(42, "main", "frame", "draw", StrMap::new());
    span.finish(&mut recorder);
    assert_eq!(recorder.events()[2].ts, 42);
    assert_eq!(recorder.events()[2].name, "draw");
}
