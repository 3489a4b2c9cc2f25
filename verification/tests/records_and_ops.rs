use buildq::cli::cli;
use buildq::ops::{check_run_targets, display_exe_path, substitute_exe_args, RunError, RunTarget};
use buildq::sbom::{
    collect_packages, PackageIdSpec, Profile, SbomBuildType, SbomDependency, SbomFormatVersion,
    SbomPackage, SbomProfile, UnitDep,
};
use buildq::target_info::{
    env_args, parse_crate_type, FileFlavor, FileType, ProbeError, TargetInfo,
};
use buildq::unit::{Kind, TargetKind};

#[test]
fn probe_line_parses_prefix_and_suffix() {
    let r = parse_crate_type("rlib", "", Some("lib___.rlib")).unwrap();
    assert_eq!(r, Some(("lib".to_string(), ".rlib".to_string())));
    // diagnostics naming the type make it unsupported, consuming no line
    let r2 = parse_crate_type(
        "proc-macro",
        "error: unsupported crate type `proc-macro` here",
        None,
    )
    .unwrap();
    assert_eq!(r2, None);
    // a missing line is malformed output
    assert_eq!(parse_crate_type("bin", "", None), Err(ProbeError::TruncatedOutput));
    // a line without the stem marker cannot be parsed
    assert_eq!(
        parse_crate_type("bin", "", Some("nothing here")),
        Err(ProbeError::UnrecognizedOutput)
    );
    // two markers: the suffix is the piece between them
    let r3 = parse_crate_type("bin", "", Some("___.js___.wasm")).unwrap();
    assert_eq!(r3, Some(("".to_string(), ".js".to_string())));
}

#[test]
fn probe_builds_the_crate_type_table() {
    // six lines, one per known crate type, then sysroot, then cfg
    let lines: Vec<String> = vec![
        "___",            // bin
        "lib___.rlib",    // rlib
        "lib___.so",      // dylib
        "lib___.so",      // cdylib
        "lib___.a",       // staticlib
        "lib___.so",      // proc-macro
        "/opt/toolchain", // sysroot
        "unix",
        "target_os=\"linux\"",
    ]
    .into_iter()
    .map(str::to_string)
    .collect();
    let info = TargetInfo::from_probe(
        &lines,
        "",
        true,
        Kind::Target,
        "x86_64-unknown-linux-gnu",
        false,
        vec!["-C".to_string(), "opt-level=2".to_string()],
        vec![],
    )
    .unwrap();
    assert_eq!(
        info.sysroot_libdir.as_deref(),
        Some("/opt/toolchain/lib/rustlib/x86_64-unknown-linux-gnu/lib")
    );
    assert_eq!(
        info.cfg().map(|v| v.clone()),
        Some(vec!["unix".to_string(), "target_os=\"linux\"".to_string()])
    );
    assert!(info.has_crate_type("rlib"));
    assert!(!info.has_crate_type("nonsense"));
    let types = info
        .file_types("rlib", FileFlavor::Linkable { rmeta: false }, &TargetKind::Lib, "x86_64-unknown-linux-gnu")
        .unwrap();
    assert_eq!(types.len(), 1);
    assert_eq!(types[0].prefix, "lib");
    assert_eq!(types[0].suffix, ".rlib");
    assert_eq!(info.rustflags, vec!["-C".to_string(), "opt-level=2".to_string()]);
}

#[test]
fn unsupported_types_take_no_probe_line() {
    // proc-macro is refused by the diagnostics, so its entry is None and
    // the sysroot line right after the five accepted lines is still found
    let lines: Vec<String> = vec!["___", "lib___.rlib", "lib___.so", "lib___.so", "lib___.a", "/sysroot"]
        .into_iter()
        .map(str::to_string)
        .collect();
    let info = TargetInfo::from_probe(
        &lines,
        "error: unsupported crate type `proc-macro`",
        true,
        Kind::Host,
        "x86_64-unknown-linux-gnu",
        false,
        vec![],
        vec![],
    )
    .unwrap();
    assert_eq!(info.sysroot_libdir.as_deref(), Some("/sysroot/lib"));
    assert!(info.has_crate_type("proc-macro"));
    let pm = info.file_types("proc-macro", FileFlavor::Normal, &TargetKind::Lib, "t");
    assert!(pm.is_none());
}

#[test]
fn msvc_dylib_gets_import_library_and_pdb() {
    let mut info = TargetInfo {
        crate_types: Vec::new(),
        sysroot_libdir: None,
        rustflags: vec![],
        rustdocflags: vec![],
        cfg: None,
    };
    info.discover_crate_type("dylib", "___.dll", "").unwrap();
    let types = info
        .file_types("dylib", FileFlavor::Linkable { rmeta: false }, &TargetKind::Bin, "x86_64-pc-windows-msvc")
        .unwrap();
    let suffixes: Vec<&str> = types.iter().map(|t| t.suffix.as_str()).collect();
    assert_eq!(suffixes, vec![".dll", ".dll.lib", ".pdb"]);
    assert_eq!(types[2].flavor, FileFlavor::DebugInfo);
}

#[test]
fn wasm_bin_adds_module_with_underscored_stem() {
    let mut info = TargetInfo {
        crate_types: Vec::new(),
        sysroot_libdir: None,
        rustflags: vec![],
        rustdocflags: vec![],
        cfg: None,
    };
    info.discover_crate_type("bin", "___.js", "").unwrap();
    let types = info
        .file_types("bin", FileFlavor::Normal, &TargetKind::Lib, "wasm32-unknown-emscripten")
        .unwrap();
    assert_eq!(types.len(), 2);
    assert_eq!(types[1].suffix, ".wasm");
    assert!(types[1].should_replace_hyphens);
    assert_eq!(types[1].filename("web-stuff"), "web_stuff.wasm");
    assert_eq!(types[0].filename("web-stuff"), "web-stuff.js");
}

#[test]
fn file_name_assembly() {
    let ft = FileType {
        flavor: FileFlavor::Normal,
        suffix: ".rlib".to_string(),
        prefix: "lib".to_string(),
        should_replace_hyphens: false,
    };
    assert_eq!(ft.filename("foo"), "libfoo.rlib");
}

#[test]
fn env_flags_precedence() {
    // with an explicit target, host units get nothing
    let r = env_args(&Some("t".to_string()), Kind::Host, &Some("-Cfoo".to_string()), &None, &vec![], &None);
    assert!(r.is_empty());
    // the environment wins and is split at spaces, empties dropped
    let r2 = env_args(&None, Kind::Host, &Some(" -C  opt-level=2 ".to_string()), &None, &vec![], &None);
    assert_eq!(r2, vec!["-C".to_string(), "opt-level=2".to_string()]);
    // each piece of the environment value is trimmed of white space
    let r2t = env_args(&None, Kind::Host, &Some("\t-O \t -g\t".to_string()), &None, &vec![], &None);
    assert_eq!(r2t, vec!["-O".to_string(), "-g".to_string()]);
    // target and cfg flags come next, in order
    let r3 = env_args(
        &None,
        Kind::Target,
        &None,
        &Some(vec!["-Ca".to_string()]),
        &vec![vec!["-Cb".to_string()], vec!["-Cc".to_string()]],
        &Some(vec!["-Cd".to_string()]),
    );
    assert_eq!(r3, vec!["-Ca".to_string(), "-Cb".to_string(), "-Cc".to_string()]);
    // without those, the build default applies
    let r4 = env_args(&None, Kind::Target, &None, &None, &vec![], &Some(vec!["-Cd".to_string()]));
    assert_eq!(r4, vec!["-Cd".to_string()]);
}

fn plain_profile(name: &str) -> Profile {
    Profile {
        name: name.to_string(),
        opt_level: "0".to_string(),
        lto: "false".to_string(),
        codegen_backend: None,
        codegen_units: None,
        debuginfo: "2".to_string(),
        split_debuginfo: None,
        debug_assertions: true,
        overflow_checks: true,
        rpath: false,
        incremental: false,
        panic: "unwind".to_string(),
        rustflags: vec![],
    }
}

fn dep(id: u64, name: &str, custom_build: bool, profile: Profile) -> UnitDep {
    UnitDep {
        id,
        package_id: PackageIdSpec {
            name: name.to_string(),
            version: Some("1.0.0".to_string()),
            source: "registry".to_string(),
        },
        features: vec!["default".to_string()],
        profile,
        extern_crate_name: name.replace('-', "_"),
        is_run_custom_build: custom_build,
    }
}

#[test]
fn format_version_value() {
    let v: SbomFormatVersion<1> = SbomFormatVersion;
    assert_eq!(v.value(), 1);
}

#[test]
fn package_entry_reports_profile_only_when_it_differs() {
    let root = plain_profile("dev");
    let same = dep(1, "alpha", false, plain_profile("dev"));
    let p = SbomPackage::new(&same, vec![], SbomBuildType::Normal, &root);
    assert!(p.profile.is_none());
    assert_eq!(p.package, "alpha");
    assert_eq!(p.version.as_deref(), Some("1.0.0"));

    let mut other_profile = plain_profile("dev");
    other_profile.opt_level = "3".to_string();
    let other = dep(2, "beta", true, other_profile);
    let p2 = SbomPackage::new(&other, vec![], SbomBuildType::Build, &root);
    let rp = p2.profile.expect("differing profile must be reported");
    assert_eq!(rp.opt_level, "3");
    assert_eq!(p2.build_type, SbomBuildType::Build);
}

#[test]
fn dependency_entry_copies_identity() {
    let d = dep(1, "gamma", false, plain_profile("dev"));
    let sd = SbomDependency::from_unit_dep(&d);
    assert_eq!(sd.name, "gamma");
    assert_eq!(sd.version.as_deref(), Some("1.0.0"));
    assert_eq!(sd.features, vec!["default".to_string()]);
}

#[test]
fn collect_packages_walks_transitively_in_id_order() {
    let root_profile = plain_profile("dev");
    // 3 -> 2 -> 1, roots name only 3; all three must appear, smallest
    // id first among the simultaneously known ones
    let graph = vec![
        (dep(1, "one", false, plain_profile("dev")), vec![]),
        (dep(2, "two", false, plain_profile("dev")), vec![1u64]),
        (dep(3, "three", true, plain_profile("dev")), vec![2u64]),
    ];
    let result = collect_packages(&vec![3u64], &graph, &root_profile);
    let names: Vec<&str> = result.iter().map(|p| p.package.as_str()).collect();
    assert_eq!(names, vec!["three", "two", "one"]);
    assert_eq!(result[0].build_type, SbomBuildType::Build);
    assert_eq!(result[0].dependencies.len(), 1);
    assert_eq!(result[0].dependencies[0].name, "two");

    // a diamond is reported once per unit
    let graph2 = vec![
        (dep(1, "one", false, plain_profile("dev")), vec![]),
        (dep(2, "two", false, plain_profile("dev")), vec![1u64]),
        (dep(3, "three", false, plain_profile("dev")), vec![1u64]),
        (dep(4, "four", false, plain_profile("dev")), vec![2u64, 3u64]),
    ];
    let result2 = collect_packages(&vec![4u64], &graph2, &root_profile);
    assert_eq!(result2.len(), 4);
}

#[test]
fn profile_record_copies_every_field() {
    let mut p = plain_profile("release");
    p.codegen_units = Some(16);
    p.rustflags = vec!["-Zshare-generics".to_string()];
    let sp = SbomProfile::from_profile(&p);
    assert_eq!(sp.name, "release");
    assert_eq!(sp.codegen_units, Some(16));
    assert_eq!(sp.rustflags, vec!["-Zshare-generics".to_string()]);
}

#[test]
fn run_needs_exactly_one_executable() {
    let lib = RunTarget { is_lib: true, is_custom_build: false, is_bin: false, matches_filter: false };
    let bin = RunTarget { is_lib: false, is_custom_build: false, is_bin: true, matches_filter: true };
    // no bin at all
    assert_eq!(check_run_targets(&vec![lib], true), Err(RunError::NoBinaryAvailable));
    // exactly one
    assert_eq!(check_run_targets(&vec![lib, bin], true), Ok(()));
    // several, everything requested
    assert_eq!(
        check_run_targets(&vec![bin, bin], true),
        Err(RunError::SeveralExecutables)
    );
    // several, chosen by filter
    assert_eq!(check_run_targets(&vec![bin, bin], false), Err(RunError::SeveralChosen));
    // a narrow filter matching nothing is left for compilation to check
    let nobody = RunTarget { is_lib: false, is_custom_build: false, is_bin: true, matches_filter: false };
    assert_eq!(check_run_targets(&vec![nobody], false), Ok(()));
    assert_eq!(
        RunError::NoBinaryAvailable.message(),
        "a bin target must be available for `cargo run`"
    );
}

#[test]
fn executable_path_display() {
    assert_eq!(display_exe_path("/w/target/debug/foo", "/w/target/debug"), "./foo");
    assert_eq!(display_exe_path("/w/target/debug/deps/foo", "/w/target/debug"), "deps/foo");
    assert_eq!(display_exe_path("/elsewhere/foo", "/w"), "/elsewhere/foo");
}

#[test]
fn runner_argument_substitution() {
    let args = vec!["-v".to_string(), "{}".to_string(), "--".to_string()];
    let r = substitute_exe_args(&args, "./foo");
    assert_eq!(r, vec!["-v".to_string(), "./foo".to_string(), "--".to_string()]);
    let args2 = vec!["-v".to_string()];
    let r2 = substitute_exe_args(&args2, "./foo");
    assert_eq!(r2, vec!["-v".to_string(), "./foo".to_string()]);
}

#[test]
fn update_command_description() {
    let c = cli();
    assert_eq!(c.name, "update");
    assert_eq!(c.about, "Update dependencies as recorded in the local lock file");
    let names: Vec<&str> = c.args.iter().map(|a| a.name.as_str()).collect();
    assert_eq!(
        names,
        vec!["package", "aggressive", "dry-run", "precise", "manifest-path"]
    );
    assert_eq!(c.args[0].value_name.as_deref(), Some("SPEC"));
    assert_eq!(c.args[3].value_name.as_deref(), Some("PRECISE"));
    assert_eq!(c.args[4].value_name.as_deref(), Some("PATH"));
    assert!(c
        .after_help
        .starts_with("This command requires that a `Cargo.lock` already exists"));
    assert!(c
        .after_help
        .ends_with("For more information about package id specifications, see `cargo help pkgid`.\n"));
}
