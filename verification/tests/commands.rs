use abstraktor::commands::clean::listed_names;
use abstraktor::commands::export_graphs::{node_file_name, OutputFormat};
use abstraktor::commands::get_targets::is_source_extension;
use abstraktor::commands::instrument::{InstrumentArgs, TEMP_TARGETS_PATH};
use abstraktor::commands::llvm::{
    first_missing, LlvmArgs, MissingInput, AFL_CC, LLVM_INSTRUMENTOR_PATH,
};
use abstraktor::commands::setup::jepsen::JepsenArgs;
use abstraktor::commands::setup::mediator::MediatorArgs;
use abstraktor::commands::setup::sut::{SutArgs, DOCKER_BUILD_DIR, SUT_DIR_NAME};
use std::path::Path;

#[test]
fn test_output_format_display() {
    assert_eq!(format!("{:?}", OutputFormat::Dot), "Dot");
    assert_eq!(format!("{:?}", OutputFormat::Png), "Png");
    assert_eq!(format!("{:?}", OutputFormat::Pdf), "Pdf");
}

#[test]
fn test_instrument_args_creation() {
    let args = InstrumentArgs {
        path: "/test/path".to_string(),
        llvm_path: Some("/custom/llvm".to_string()),
    };
    assert_eq!(args.path, "/test/path");
    assert_eq!(args.llvm_path, Some("/custom/llvm".to_string()));
}

#[test]
fn test_instrument_args_without_llvm_path() {
    let args = InstrumentArgs {
        path: "/test/path".to_string(),
        llvm_path: None,
    };
    assert_eq!(args.path, "/test/path");
    assert!(args.llvm_path.is_none());
}

#[test]
fn test_temp_targets_path_constant() {
    assert_eq!(TEMP_TARGETS_PATH, "temp_targets.json");
}

#[test]
fn test_instrument_args_path_handling() {
    let test_cases = vec![
        "./relative/path",
        "/absolute/path",
        "simple_path",
        "../parent/path",
    ];

    for path in test_cases {
        let args = InstrumentArgs {
            path: path.to_string(),
            llvm_path: None,
        };
        assert_eq!(args.path, path);
    }
}

#[test]
fn test_llvm_path_options() {
    let with_custom = InstrumentArgs {
        path: "./test".to_string(),
        llvm_path: Some("/custom/llvm".to_string()),
    };
    assert!(with_custom.llvm_path.is_some());

    let with_default = InstrumentArgs {
        path: "./test".to_string(),
        llvm_path: None,
    };
    assert!(with_default.llvm_path.is_none());
}

#[test]
fn test_llvm_args_creation() {
    let args = LlvmArgs {
        path: "/test/path".to_string(),
        targets_path: "/test/targets.json".to_string(),
        llvm_path: Some("/custom/llvm".to_string()),
    };
    assert_eq!(args.path, "/test/path");
    assert_eq!(args.targets_path, "/test/targets.json");
    assert_eq!(args.llvm_path, Some("/custom/llvm".to_string()));
}

#[test]
fn test_llvm_args_without_custom_path() {
    let args = LlvmArgs {
        path: "/test/path".to_string(),
        targets_path: "/test/targets.json".to_string(),
        llvm_path: None,
    };
    assert_eq!(args.path, "/test/path");
    assert_eq!(args.targets_path, "/test/targets.json");
    assert!(args.llvm_path.is_none());
}

#[test]
fn test_llvm_instrumentor_path_constant() {
    assert_eq!(LLVM_INSTRUMENTOR_PATH, "./llvm/afl-clang-fast");
}

#[test]
fn test_afl_cc_constant() {
    assert_eq!(AFL_CC, "clang-11");
}

#[test]
fn test_llvm_path_defaults_to_constant() {
    let args = LlvmArgs {
        path: "./test".to_string(),
        targets_path: "./targets.json".to_string(),
        llvm_path: None,
    };

    let llvm_path = args
        .llvm_path
        .unwrap_or_else(|| LLVM_INSTRUMENTOR_PATH.to_string());
    assert_eq!(llvm_path, LLVM_INSTRUMENTOR_PATH);
}

#[test]
fn test_llvm_path_uses_custom_when_provided() {
    let custom_path = "/custom/instrumentor";
    let args = LlvmArgs {
        path: "./test".to_string(),
        targets_path: "./targets.json".to_string(),
        llvm_path: Some(custom_path.to_string()),
    };

    let llvm_path = args
        .llvm_path
        .unwrap_or_else(|| LLVM_INSTRUMENTOR_PATH.to_string());
    assert_eq!(llvm_path, custom_path);
}

#[test]
fn test_args_with_various_path_formats() {
    let test_cases = vec![
        ("./relative/path", "./targets.json"),
        ("/absolute/path", "/absolute/targets.json"),
        ("simple_path", "targets.json"),
        ("../parent/path", "../targets.json"),
    ];

    for (path, targets_path) in test_cases {
        let args = LlvmArgs {
            path: path.to_string(),
            targets_path: targets_path.to_string(),
            llvm_path: None,
        };
        assert_eq!(args.path, path);
        assert_eq!(args.targets_path, targets_path);
    }
}

#[test]
fn test_sut_args_creation() {
    let args = SutArgs {
        path: "/test/path".to_string(),
        destination: Some("custom_dest".to_string()),
        rebuild: false,
    };
    assert_eq!(args.path, "/test/path");
    assert_eq!(args.destination, Some("custom_dest".to_string()));
    assert_eq!(args.rebuild, false);
}

#[test]
fn test_sut_args_without_custom_destination() {
    let args = SutArgs {
        path: "/test/path".to_string(),
        destination: None,
        rebuild: false,
    };
    assert_eq!(args.path, "/test/path");
    assert!(args.destination.is_none());
    assert_eq!(args.rebuild, false);
}

#[test]
fn test_sut_args_rebuild_flag() {
    let with_rebuild = SutArgs {
        path: "/test".to_string(),
        destination: None,
        rebuild: true,
    };
    assert!(with_rebuild.rebuild);

    let without_rebuild = SutArgs {
        path: "/test".to_string(),
        destination: None,
        rebuild: false,
    };
    assert!(!without_rebuild.rebuild);
}

#[test]
fn test_sut_dir_name_constant() {
    assert_eq!(SUT_DIR_NAME, "SUT");
}

#[test]
fn test_docker_build_dir_constant() {
    assert_eq!(DOCKER_BUILD_DIR, "mallory/docker/node");
}

#[test]
fn test_destination_defaults_to_source_name() {
    let test_source = Path::new("./tests/sut_test/sample_source");
    if !test_source.exists() {
        return;
    }

    let source_name = test_source
        .file_name()
        .and_then(|name| name.to_str())
        .unwrap_or("source");

    assert_eq!(source_name, "sample_source");
}

#[test]
fn test_rebuild_flag_is_never_true_in_tests() {
    let test_cases = vec![
        SutArgs {
            path: "./test".to_string(),
            destination: None,
            rebuild: false,
        },
        SutArgs {
            path: "./test2".to_string(),
            destination: Some("dest".to_string()),
            rebuild: false,
        },
    ];

    for args in test_cases {
        assert!(!args.rebuild);
    }
}

#[test]
fn test_various_path_formats() {
    let test_cases = vec![
        "./relative/path",
        "/absolute/path",
        "simple_path",
        "../parent/path",
    ];

    for path in test_cases {
        let args = SutArgs {
            path: path.to_string(),
            destination: None,
            rebuild: false,
        };
        assert_eq!(args.path, path);
    }
}

#[test]
fn test_custom_vs_default_destination() {
    let with_custom = SutArgs {
        path: "./source".to_string(),
        destination: Some("custom_name".to_string()),
        rebuild: false,
    };
    assert_eq!(with_custom.destination, Some("custom_name".to_string()));

    let with_default = SutArgs {
        path: "./source".to_string(),
        destination: None,
        rebuild: false,
    };
    assert!(with_default.destination.is_none());
}

#[test]
fn named_compiler_is_used_and_else_the_usual_one() {
    let named = LlvmArgs {
        path: "./test".to_string(),
        targets_path: "./targets.json".to_string(),
        llvm_path: Some("/custom/instrumentor".to_string()),
    };
    assert_eq!(named.instrumentor_path(), "/custom/instrumentor");
    let usual = LlvmArgs {
        path: "./test".to_string(),
        targets_path: "./targets.json".to_string(),
        llvm_path: None,
    };
    assert_eq!(usual.instrumentor_path(), "./llvm/afl-clang-fast");
}

#[test]
fn compiler_is_looked_for_first_then_tree_then_targets() {
    assert_eq!(first_missing(false, false, false), Some(MissingInput::Instrumentor));
    assert_eq!(first_missing(false, true, true), Some(MissingInput::Instrumentor));
    assert_eq!(first_missing(true, false, false), Some(MissingInput::Path));
    assert_eq!(first_missing(true, false, true), Some(MissingInput::Path));
    assert_eq!(first_missing(true, true, false), Some(MissingInput::TargetsFile));
    assert_eq!(first_missing(true, true, true), None);
    assert_eq!(
        MissingInput::Instrumentor.message("/x/y"),
        "Instrumentor not found at /x/y"
    );
    assert_eq!(MissingInput::Path.message("/p"), "Path not found at /p");
    assert_eq!(
        MissingInput::TargetsFile.message("t.json"),
        "Targets file not found at t.json"
    );
}

#[test]
fn instrument_hands_its_arguments_to_both_steps() {
    let args = InstrumentArgs {
        path: "./tree".to_string(),
        llvm_path: Some("/bin/cc".to_string()),
    };
    let scan = args.scan_step(TEMP_TARGETS_PATH);
    assert_eq!(scan.path, "./tree");
    assert_eq!(scan.output, "temp_targets.json");
    let build = args.build_step(TEMP_TARGETS_PATH);
    assert_eq!(build.path, "./tree");
    assert_eq!(build.targets_path, "temp_targets.json");
    assert_eq!(build.llvm_path, Some("/bin/cc".to_string()));
}

#[test]
fn copy_is_named_by_destination_then_directory_then_source() {
    let asked = SutArgs {
        path: "./source".to_string(),
        destination: Some("custom_name".to_string()),
        rebuild: false,
    };
    assert_eq!(asked.destination_name(Some("source_dir")), "custom_name");
    assert_eq!(asked.destination_name(None), "custom_name");
    let plain = SutArgs {
        path: "./source".to_string(),
        destination: None,
        rebuild: false,
    };
    assert_eq!(plain.destination_name(Some("sample_source")), "sample_source");
    assert_eq!(plain.destination_name(None), "source");
    let jepsen = JepsenArgs {
        path: "..".to_string(),
        destination: None,
        rebuild: true,
    };
    assert_eq!(jepsen.destination_name(None), "source");
    assert_eq!(jepsen.destination_name(Some("d")), "d");
}

#[test]
fn mediator_build_arguments_follow_the_flags() {
    let plain = MediatorArgs { release: false, selfcheck: false, logsaving: false };
    assert_eq!(plain.cargo_arguments(), vec!["build"]);
    assert_eq!(plain.build_mode(), "debug");
    assert_eq!(plain.features(), None);
    let release = MediatorArgs { release: true, selfcheck: false, logsaving: false };
    assert_eq!(release.cargo_arguments(), vec!["build", "--release"]);
    assert_eq!(release.build_mode(), "release");
    let one = MediatorArgs { release: false, selfcheck: false, logsaving: true };
    assert_eq!(one.cargo_arguments(), vec!["build", "--features", "logsaving"]);
    let other = MediatorArgs { release: false, selfcheck: true, logsaving: false };
    assert_eq!(other.cargo_arguments(), vec!["build", "--features", "selfcheck"]);
    let all = MediatorArgs { release: true, selfcheck: true, logsaving: true };
    assert_eq!(
        all.cargo_arguments(),
        vec!["build", "--release", "--features", "selfcheck,logsaving"]
    );
    assert_eq!(all.features(), Some("selfcheck,logsaving".to_string()));
}

#[test]
fn graph_files_are_named_by_node_and_format() {
    assert_eq!(OutputFormat::Dot.extension(), "dot");
    assert_eq!(OutputFormat::Png.extension(), "png");
    assert_eq!(OutputFormat::Pdf.extension(), "pdf");
    assert!(!OutputFormat::Dot.is_drawn());
    assert!(OutputFormat::Png.is_drawn());
    assert!(OutputFormat::Pdf.is_drawn());
    assert_eq!(node_file_name(1, "dot"), "node_1.dot");
    assert_eq!(node_file_name(0, "png"), "node_0.png");
    assert_eq!(node_file_name(4294967295, "pdf"), "node_4294967295.pdf");
    assert_eq!(node_file_name(120, OutputFormat::Pdf.extension()), "node_120.pdf");
}

#[test]
fn only_c_and_cpp_files_are_scanned() {
    assert!(is_source_extension("c"));
    assert!(is_source_extension("cpp"));
    assert!(!is_source_extension("h"));
    assert!(!is_source_extension("C"));
    assert!(!is_source_extension("cc"));
    assert!(!is_source_extension(""));
    assert!(!is_source_extension("cpp "));
}

#[test]
fn listing_names_its_words() {
    assert_eq!(listed_names("abc\ndef\n"), vec!["abc", "def"]);
    assert_eq!(listed_names("  one\t two "), vec!["one", "two"]);
    assert!(listed_names("").is_empty());
    assert!(listed_names(" \n\t").is_empty());
}
