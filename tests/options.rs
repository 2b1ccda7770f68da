use bfc::cli::{stop_at_assembly, stop_at_c, Cli, CliError};

fn options(output: Option<&str>, assembly: bool, c: bool) -> Cli {
    Cli {
        input_path: "in.bf".to_string(),
        output_path: output.map(|s| s.to_string()),
        optimizations: false,
        assembly,
        c,
        keep_files: false,
        dump_ast: false,
    }
}

#[test]
fn default_output_paths() {
    assert_eq!(options(None, false, false).output_path_or_default(), Ok("a.out".to_string()));
    assert_eq!(options(None, true, false).output_path_or_default(), Ok("a.S".to_string()));
    assert_eq!(options(None, false, true).output_path_or_default(), Ok("a.c".to_string()));
    assert_eq!(
        options(Some("prog"), false, true).output_path_or_default(),
        Ok("prog".to_string())
    );
}

#[test]
fn both_targets_is_an_error() {
    assert_eq!(
        options(None, true, true).output_path_or_default(),
        Err(CliError::BothTargets)
    );
    assert_eq!(
        CliError::BothTargets.message(),
        "can't output both C and assembly at the same time"
    );
}

#[test]
fn stop_by_flag_or_extension() {
    let plain = options(None, false, false);
    assert!(stop_at_c(Some("c"), &plain));
    assert!(stop_at_c(Some("C"), &plain));
    assert!(!stop_at_c(Some("cc"), &plain));
    assert!(!stop_at_c(None, &plain));
    assert!(stop_at_c(None, &options(None, false, true)));
    assert!(stop_at_assembly(Some("s"), &plain));
    assert!(stop_at_assembly(Some("S"), &plain));
    assert!(!stop_at_assembly(Some("o"), &plain));
    assert!(stop_at_assembly(None, &options(None, true, false)));
}
