use buildq::dependency_queue::DependencyQueue;
use buildq::freshness::Freshness;
use buildq::layout::Layout;
use buildq::shell::{
    color_config_from_str, finished_message, format_status_line, Attr, ColorConfig, ShellConfig,
    Style, Styles, Verbosity,
};
use buildq::strutil::{
    parse_u32, replace_hyphens, split_lines, str_contains, str_ends_with, str_find,
    str_split_char, str_starts_with, trim_ws, u64_pad2, u64_to_dec,
};
use buildq::unit::{CompileMode, Job, Key, Kind, QueuedJob, Target, TargetKind, Unit};
use buildq::freshness::Freshness::{Dirty, Fresh};

fn key(pkg: u64) -> Key {
    Key {
        pkg,
        target: Target { id: pkg, kind: TargetKind::Lib },
        profile: 0,
        kind: Kind::Host,
        mode: CompileMode::Build,
    }
}

fn qj(id: u64, fresh: Freshness) -> QueuedJob {
    QueuedJob { job: Job { id }, fresh }
}

#[test]
fn combine_is_commutative_associative_and_absorbing() {
    for a in [Fresh, Dirty] {
        for b in [Fresh, Dirty] {
            assert_eq!(a.combine(b), b.combine(a));
            for c in [Fresh, Dirty] {
                assert_eq!(a.combine(b).combine(c), a.combine(b.combine(c)));
            }
        }
    }
    assert_eq!(Dirty.combine(Fresh), Dirty);
    assert_eq!(Dirty.combine(Dirty), Dirty);
    assert_eq!(Fresh.combine(Dirty), Dirty);
    assert_eq!(Fresh.combine(Fresh), Fresh);
}

#[test]
fn nodes_come_out_in_dependency_order() {
    // c -> b -> a: each node is dequeued only after its dependency
    // finished, and each exactly once.
    let mut q = DependencyQueue::new();
    q.queue(Freshness::Fresh, key(3), qj(3, Freshness::Dirty), &vec![key(2)]);
    q.queue(Freshness::Fresh, key(2), qj(2, Freshness::Dirty), &vec![key(1)]);
    q.queue(Freshness::Fresh, key(1), qj(1, Freshness::Dirty), &vec![]);
    q.queue_finished();
    let mut order = Vec::new();
    loop {
        match q.dequeue() {
            Some((_, k, _)) => {
                order.push(k.pkg);
                q.finish(&k, Freshness::Fresh);
            }
            None => break,
        }
    }
    assert_eq!(order, vec![1, 2, 3]);
    assert!(q.is_empty());
}

#[test]
fn blocked_nodes_wait_for_inflight_dependencies() {
    let mut q = DependencyQueue::new();
    q.queue(Freshness::Fresh, key(2), qj(2, Freshness::Dirty), &vec![key(1)]);
    q.queue(Freshness::Fresh, key(1), qj(1, Freshness::Dirty), &vec![]);
    q.queue_finished();
    let (_, k1, _) = q.dequeue().unwrap();
    assert_eq!(k1.pkg, 1);
    // nothing else is unblocked while the dependency is in flight
    assert!(q.dequeue().is_none());
    assert!(!q.is_empty());
    q.finish(&k1, Freshness::Fresh);
    let (_, k2, _) = q.dequeue().unwrap();
    assert_eq!(k2.pkg, 2);
}

#[test]
fn dirtiness_flows_along_edges() {
    let mut q = DependencyQueue::new();
    q.queue(Freshness::Fresh, key(2), qj(2, Freshness::Fresh), &vec![key(1)]);
    q.queue(Freshness::Fresh, key(1), qj(1, Freshness::Dirty), &vec![]);
    q.queue_finished();
    let (f1, k1, _) = q.dequeue().unwrap();
    assert_eq!(f1, Freshness::Fresh);
    q.finish(&k1, Freshness::Dirty);
    let (f2, _, _) = q.dequeue().unwrap();
    assert_eq!(f2, Freshness::Dirty);
}

#[test]
fn repeated_queue_calls_append_jobs() {
    let mut q = DependencyQueue::new();
    q.queue(Freshness::Fresh, key(1), qj(1, Freshness::Dirty), &vec![]);
    q.queue(Freshness::Fresh, key(1), qj(2, Freshness::Fresh), &vec![]);
    q.queue_finished();
    let (_, _, jobs) = q.dequeue().unwrap();
    let ids: Vec<u64> = jobs.iter().map(|j| j.job.id).collect();
    assert_eq!(ids, vec![1, 2]);
}

#[test]
fn test_target_skips_bin_dependency_edge() {
    let test_unit = Unit {
        pkg: 1,
        target: Target { id: 1, kind: TargetKind::Test },
        profile: 0,
        kind: Kind::Host,
        mode: CompileMode::Test,
    };
    let bin_dep = Unit {
        pkg: 2,
        target: Target { id: 2, kind: TargetKind::Bin },
        profile: 0,
        kind: Kind::Host,
        mode: CompileMode::Build,
    };
    let lib_dep = Unit {
        pkg: 3,
        target: Target { id: 3, kind: TargetKind::Lib },
        profile: 0,
        kind: Kind::Host,
        mode: CompileMode::Build,
    };
    let k = Key::new(&test_unit);
    let deps = k.dependencies(&vec![bin_dep, lib_dep]);
    assert_eq!(deps.len(), 1);
    assert_eq!(deps[0].pkg, 3);
}

#[test]
fn layout_paths_are_fixed_by_root_and_dest() {
    let l = Layout::new("/work/target", None, "debug");
    assert_eq!(l.root(), "/work/target");
    assert_eq!(l.dest(), "/work/target/debug");
    assert_eq!(l.deps(), "/work/target/debug/deps");
    assert_eq!(l.build(), "/work/target/debug/build");
    assert_eq!(l.incremental(), "/work/target/debug/incremental");
    assert_eq!(l.fingerprint(), "/work/target/debug/.fingerprint");
    assert_eq!(l.examples(), "/work/target/debug/examples");
    assert_eq!(l.doc(), "/work/target/doc");
    assert_eq!(l.src(), "/work/target/doc/src");
    assert_eq!(l.tmp(), "/work/target/debug/tmp");
}

#[test]
fn layout_cross_compiling_nests_under_triple() {
    let l = Layout::new("/t", Some("wasm32-unknown-unknown"), "release");
    assert_eq!(l.root(), "/t/wasm32-unknown-unknown");
    assert_eq!(l.dest(), "/t/wasm32-unknown-unknown/release");
    assert_eq!(l.doc(), "/t/wasm32-unknown-unknown/doc");
}

#[test]
fn text_helpers_behave_like_std() {
    assert!(str_starts_with("wasm32-wasi", "wasm32-"));
    assert!(!str_starts_with("x86_64", "wasm32-"));
    assert!(str_ends_with("x86_64-pc-windows-msvc", "pc-windows-msvc"));
    assert!(!str_ends_with("msvc", "pc-windows-msvc"));
    assert!(str_contains("a-apple-b", "-apple-"));
    assert!(!str_contains("a-appl-b", "-apple-"));
    assert_eq!(str_find("lib___.rlib", "___"), Some(3));
    assert_eq!(str_find("no marker", "___"), None);
    assert_eq!(trim_ws("  lib___.rlib  "), "lib___.rlib");
    assert_eq!(trim_ws("   "), "");
    assert_eq!(trim_ws("\t lib___.rlib\r\n"), "lib___.rlib");
    assert_eq!(trim_ws("\t\n"), "");
    let pieces = str_split_char("a;31;", ';');
    assert_eq!(pieces, vec!["a", "31", ""]);
    let lines = split_lines("one\r\ntwo\nthree\n");
    assert_eq!(lines, vec!["one", "two", "three"]);
    assert_eq!(parse_u32("31"), Some(31));
    assert_eq!(parse_u32(""), None);
    assert_eq!(parse_u32("12x"), None);
    assert_eq!(parse_u32("+1"), Some(1));
    assert_eq!(parse_u32("+"), None);
    assert_eq!(parse_u32("++1"), None);
    assert_eq!(parse_u32("4294967295"), Some(u32::MAX));
    assert_eq!(parse_u32("4294967296"), None);
    assert_eq!(u64_to_dec(0), "0");
    assert_eq!(u64_to_dec(10470), "10470");
    assert_eq!(u64_pad2(7), "07");
    assert_eq!(u64_pad2(42), "42");
    assert_eq!(replace_hyphens("web-stuff"), "web_stuff");
}

#[test]
fn style_string_parsing() {
    // "1" turns on bold; "1;31" also picks color 31.
    let s = Style::from_str("1;31", 0, None);
    assert_eq!(s.color, 31);
    assert_eq!(s.attr, Some(Attr::Bold));
    // "0" removes an inherited bold
    let s2 = Style::from_str("0", 5, Some(Attr::Bold));
    assert_eq!(s2.color, 5);
    assert_eq!(s2.attr, None);
    // color-range code sets the color directly
    let s3 = Style::from_str("33", 0, None);
    assert_eq!(s3.color, 33);
    // junk is ignored
    let s4 = Style::from_str("junk", 2, Some(Attr::Bold));
    assert_eq!(s4.color, 2);
    assert_eq!(s4.attr, Some(Attr::Bold));
}

#[test]
fn styles_from_environment_override_defaults() {
    let st = Styles::from_env(Some("status=1;35:error=34"));
    assert_eq!(st.status.color, 35);
    assert_eq!(st.status.attr, Some(Attr::Bold));
    assert_eq!(st.error.color, 34);
    // untouched entries keep their defaults
    let defaults = Styles::from_env(None);
    assert_eq!(st.warning, defaults.warning);
    assert_eq!(defaults.status.color, buildq::shell::GREEN);
}

#[test]
fn color_configuration_parsing() {
    assert_eq!(color_config_from_str(None), Ok(ColorConfig::Auto));
    assert_eq!(color_config_from_str(Some("auto")), Ok(ColorConfig::Auto));
    assert_eq!(color_config_from_str(Some("always")), Ok(ColorConfig::Always));
    assert_eq!(color_config_from_str(Some("never")), Ok(ColorConfig::Never));
    let err = color_config_from_str(Some("sometimes")).unwrap_err();
    assert_eq!(
        err,
        "argument for --color must be auto, always, or never, but found `sometimes`"
    );
}

#[test]
fn shell_gating_decisions() {
    assert!(Verbosity::Normal.prints_status());
    assert!(!Verbosity::Quiet.prints_status());
    assert!(Verbosity::Verbose.is_verbose());
    assert!(Verbosity::Normal.is_concise());
    let auto_tty = ShellConfig { color_config: ColorConfig::Auto, tty: true };
    let auto_pipe = ShellConfig { color_config: ColorConfig::Auto, tty: false };
    let always_pipe = ShellConfig { color_config: ColorConfig::Always, tty: false };
    let never_tty = ShellConfig { color_config: ColorConfig::Never, tty: true };
    assert!(auto_tty.colored());
    assert!(!auto_pipe.colored());
    assert!(always_pipe.colored());
    assert!(!never_tty.colored());
}

#[test]
fn status_lines_are_right_justified() {
    assert_eq!(format_status_line("Compiling", "foo v0.1.0"), "   Compiling foo v0.1.0");
    assert_eq!(format_status_line("Fresh", "bar"), "       Fresh bar");
    assert_eq!(
        format_status_line("averylongstatus", "x"),
        "averylongstatus x"
    );
}

#[test]
fn summary_line_formats() {
    assert_eq!(
        finished_message(false, true, true, 1, 20_000_000),
        "dev [unoptimized + debuginfo] target(s) in 1.02s"
    );
    assert_eq!(
        finished_message(true, false, false, 65, 0),
        "release [optimized] target(s) in 1m 05s"
    );
    assert_eq!(
        finished_message(false, false, true, 59, 990_000_000),
        "dev [optimized + debuginfo] target(s) in 59.99s"
    );
}
