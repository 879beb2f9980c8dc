use stallwatch::attribution::Sampler;
use stallwatch::config::Config;
use stallwatch::daemon::{
    fire_rules, handle, handle_varlink, has_flag, history_reply, history_request, mode, note_flags,
    note_wake, pace, pacing_line, page_for, rank_culprits, read_behind, record, serve_metrics,
    temporary, triggers, value_behind, worth_saying, Capture, Mode, Options, Page, Step,
    MAX_CULPRITS,
};
use stallwatch::float::Double;
use stallwatch::incident::Incident;
use stallwatch::json;
use stallwatch::pathology::{Severity, Warning};
use stallwatch::process::ProcCulprit;
use stallwatch::psi::{PsiKind, Resource};
use stallwatch::report::{Role, Stall};
use stallwatch::ring::{Frame, Ring};
use stallwatch::span::Span;
use stallwatch::varlink;

fn d(x: f64) -> Double {
    Double { bits: x.to_bits() }
}

fn stall(unit: &str, pct: f64) -> Stall {
    Stall {
        unit: unit.into(),
        cgroup: format!("/sys/fs/cgroup/{unit}"),
        resource: Resource::Io,
        kind: PsiKind::Full,
        delta_usec: 500_000,
        pressure_pct: d(pct),
        peak_pct: d(pct),
    }
}

fn ring() -> Ring {
    let mut r = Ring::new(10);
    r.push(Frame {
        at_unix: 100,
        window_usec: 1_000_000,
        stalls: vec![stall("old", 50.0)],
    });
    r.push(Frame {
        at_unix: 200,
        window_usec: 1_000_000,
        stalls: vec![stall("new", 50.0)],
    });
    r
}

fn warning() -> Warning {
    Warning {
        source: "nvme".into(),
        severity: Severity::Note,
        transient: false,
        message: "warm".into(),
    }
}

fn args(a: &[&str]) -> Vec<String> {
    a.iter().map(|s| s.to_string()).collect()
}

#[test]
fn each_request_line_has_its_answer() {
    let r = ring();
    assert_eq!(handle("PING\n", &r, 205, Vec::new()), "PONG");
    assert_eq!(
        handle("WHAT", &r, 205, Vec::new()),
        "{\"error\": \"expected PING | NOW | SINCE <secs>\"}"
    );
    let now = handle("NOW json", &r, 205, vec![warning()]);
    assert!(now.contains("\"new\"") && !now.contains("\"old\""), "{now}");
    // Conditions belong to history, which is asked for at a moment.
    assert!(!now.contains("nvme"), "{now}");
    let since = handle("SINCE 10 json", &r, 205, vec![warning()]);
    assert!(since.contains("\"new\"") && !since.contains("\"old\""), "{since}");
    assert!(since.contains("nvme"), "{since}");
    let all = handle("SINCE 1000 json", &r, 205, Vec::new());
    assert!(all.contains("\"new\"") && all.contains("\"old\""), "{all}");
    assert!(handle("NOW", &Ring::new(3), 0, Vec::new()).contains("window_usec\": 0"));
    assert_eq!(history_request(60, true), "SINCE 60 json\n");
    assert_eq!(history_request(5, false), "SINCE 5 text\n");
}

#[test]
fn each_varlink_frame_has_its_step() {
    let step = |s: &str| handle_varlink(&Some(s.to_string()));
    assert!(matches!(step("  "), Step::Close));
    assert!(matches!(handle_varlink(&None), Step::Last(m) if m.contains("not UTF-8")));
    assert!(matches!(
        step(r#"{"method":"org.varlink.service.GetInfo"}"#),
        Step::Reply(m) if m == varlink::reply_info()
    ));
    let described = format!(
        r#"{{"method":"org.varlink.service.GetInterfaceDescription","parameters":{{"interface":"{}"}}}}"#,
        varlink::INTERFACE
    );
    assert!(matches!(step(&described), Step::Reply(m) if m == varlink::reply_interface_description()));
    assert!(matches!(
        step(r#"{"method":"org.varlink.service.GetInterfaceDescription","parameters":{"interface":"x"}}"#),
        Step::Reply(m) if m.contains("\"error\"")
    ));
    let stalls = format!(r#"{{"method":"{}.GetStalls","parameters":{{"window_ms":70}}}}"#, varlink::INTERFACE);
    assert!(matches!(step(&stalls), Step::Observe(_)));
    let history = format!(r#"{{"method":"{}.GetHistory","parameters":{{"seconds":30}}}}"#, varlink::INTERFACE);
    assert!(matches!(step(&history), Step::History(30)));
    assert!(matches!(step("{"), Step::Reply(m) if json::parse(&m).is_ok()));
    let reply = history_reply(&ring(), 10, 205, vec![warning()]);
    assert!(json::parse(&reply).unwrap().get("parameters").is_some());
}

#[test]
fn only_a_get_is_answered_with_metrics() {
    assert_eq!(page_for("GET /metrics HTTP/1.1"), Page::Metrics);
    assert_eq!(page_for("GET /metrics?x=1 HTTP/1.1"), Page::Metrics);
    assert_eq!(page_for("GET / HTTP/1.1"), Page::Index);
    assert_eq!(page_for("GET /etc/passwd HTTP/1.1"), Page::NotFound);
    assert_eq!(page_for("GET"), Page::NotFound);
    assert_eq!(page_for("POST /metrics HTTP/1.1"), Page::NotAllowed);
    assert_eq!(page_for(""), Page::NotAllowed);
    assert_eq!(
        serve_metrics(Page::Metrics, "\u{e9} 1\n"),
        "HTTP/1.1 200 OK\r\nContent-Type: text/plain; version=0.0.4; charset=utf-8\r\nContent-Length: 5\r\nConnection: close\r\n\r\n\u{e9} 1\n"
    );
    assert!(serve_metrics(Page::NotAllowed, "x").ends_with("\r\n\r\nmethod not allowed\n"));
    assert_eq!(temporary("/a/b.prom"), "/a/b.prom.tmp");
}

#[test]
fn a_rule_fires_once_per_incident_on_the_first_match() {
    let mut c = Config::default();
    c.apply_toml(
        "[[rule]]\nname = \"browser\"\nwhen = 'unit ~ fire'\nnotify = true\nrun = \"echo {unit}\"\nlog = \"/tmp/x\"\n[[rule]]\nname = \"never\"\nwhen = 'peak > 99'\n",
        "/cfg",
    )
    .unwrap();
    let i = Incident {
        at_unix: 1,
        window_usec: 1,
        woke_on: vec![],
        stalls: vec![stall("code", 70.0), stall("firefox", 60.0), stall("firefox2", 50.0)],
        warnings: vec![],
        culprits: vec![],
        causes: vec![],
    };
    let fired = fire_rules(&c.rules, &i);
    assert_eq!(fired.len(), 1);
    assert_eq!(fired[0].rule, "browser");
    assert_eq!(fired[0].command.as_deref(), Some("echo firefox"));
    assert_eq!(
        fired[0].notice,
        Some(("stallwatch: browser".to_string(), "firefox froze you 500ms on io".to_string()))
    );
    assert_eq!(fired[0].log, Some(("/tmp/x".to_string(), i.to_jsonl())));
}

fn process(pid: u32, blocked: u32, written: u64) -> ProcCulprit {
    ProcCulprit {
        pid,
        comm: format!("p{pid}"),
        blocked_samples: blocked,
        total_samples: 10,
        read_bytes: 0,
        write_bytes: written,
        blkio_delay_ms: None,
    }
}

#[test]
fn a_capture_is_recorded_with_its_causes_first() {
    let drilled = vec![
        process(1, 9, 0),
        process(2, 9, 0),
        process(3, 1, 9_000_000),
        process(4, 9, 0),
        process(5, 9, 0),
        process(6, 9, 0),
        process(7, 9, 0),
    ];
    let ranked = rank_culprits(&drilled);
    assert_eq!(ranked.len(), MAX_CULPRITS);
    assert_eq!((ranked[0].pid, ranked[0].role), (3, Role::Cause));
    assert_eq!(ranked[1].pid, 1);
    let mut woke = vec![Resource::Io];
    note_wake(&mut woke, Resource::Cpu);
    note_wake(&mut woke, Resource::Io);
    assert_eq!(woke, vec![Resource::Io, Resource::Cpu]);
    let (incident, frame) = record(
        Capture {
            window_usec: 400_000,
            stalls: vec![stall("a", 90.0)],
            causes: vec![],
            warnings: vec![warning()],
            drilled,
        },
        &woke,
        77,
    );
    assert_eq!(incident.woke_on, vec!["io", "cpu"]);
    assert_eq!(incident.culprits.len(), MAX_CULPRITS);
    assert_eq!((incident.at_unix, frame.at_unix), (77, 77));
    assert_eq!(frame.window_usec, 400_000);
    assert_eq!(frame.stalls, incident.stalls);
}

#[test]
fn flags_win_over_the_configuration_and_stay_in_bounds() {
    let mut c = Config::default();
    let given = args(&[
        "--threshold", "5000", "--tick", "1", "--duty", "90", "--metrics-listen", ":9", "--poll",
    ]);
    let o = Options::resolve(&given, &c);
    assert_eq!(o.threshold_ms, 900);
    assert_eq!(o.capture_ms, 400);
    assert_eq!(o.tick_ms, 100);
    assert_eq!(o.duty, d(0.5));
    assert_eq!(o.capacity, 3000);
    assert_eq!(o.max_series, 500);
    assert!(o.force_poll && o.notify);
    assert_eq!(o.metrics_listen.as_deref(), Some(":9"));
    assert_eq!(o.metrics_textfile, None);
    assert_eq!(Options::resolve(&args(&[]), &c).duty, d(0.02));
    assert_eq!(Options::resolve(&args(&["--duty", "0"]), &c).duty, d(0.001));
    assert!(!Options::resolve(&args(&["--no-notify"]), &c).notify);
    note_flags(&mut c, &given);
    assert_eq!(c.threshold_ms.origin.to_text(), "command line --threshold");
    assert_eq!(c.capture_ms.origin.to_text(), "built-in default");
    assert!(has_flag(&given, "--poll") && !has_flag(&given, "--history"));
    assert_eq!(value_behind(&args(&["a"]), "a"), None);
    assert_eq!(read_behind(&given, "--tick"), Some(1));
    assert_eq!(read_behind(&given, "--metrics-listen"), None);
}

#[test]
fn pacing_is_announced_where_it_diverges() {
    let floor = Span::from_secs(1);
    assert!(!worth_saying(floor, floor, Span::from_secs(9)));
    assert!(!worth_saying(Span::from_millis(1500), floor, Span::from_secs(1)));
    assert!(worth_saying(Span::from_millis(1501), floor, Span::from_secs(1)));
    assert_eq!(
        pacing_line(Span::from_millis(26), Span::from_millis(1300), d(0.02)),
        "stallwatchd: sweep costs 26ms; pacing to 1.3s to stay under 2% of a core"
    );
    let sampler = Sampler::new(Vec::new(), 0, Span::from_millis(26));
    assert_eq!(pace(&sampler, d(0.02), 1000), Some(Span::from_millis(1300)));
    assert_eq!(pace(&sampler, d(0.0001), 1000), Some(Span::from_millis(26_000)));
    assert_eq!(pace(&sampler, d(0.5), 30_000), Some(Span::from_secs(30)));
    assert_eq!(pace(&sampler, d(0.5), 30_001), None);
    let t = triggers(Span::from_millis(50), &Config::default().resources.value);
    let paths: Vec<String> = t.iter().map(|t| t.path().to_string()).collect();
    assert_eq!(paths, vec!["/proc/pressure/cpu", "/proc/pressure/memory", "/proc/pressure/io"]);
    assert_eq!(t[0].request_line(), "some 50000 2000000\n");
    assert_eq!(t[2].request_line(), "full 50000 2000000\n");
    let some = triggers(
        Span::from_millis(50),
        &vec!["io".to_string(), "cpu".to_string(), "io".to_string()],
    );
    let paths: Vec<&str> = some.iter().map(|t| t.path()).collect();
    assert_eq!(paths, vec!["/proc/pressure/cpu", "/proc/pressure/io"]);
    assert!(triggers(Span::from_millis(50), &Vec::new()).is_empty());
    assert_eq!(mode(0), Mode::Polling);
    assert_eq!(mode(2), Mode::Woken);
}
