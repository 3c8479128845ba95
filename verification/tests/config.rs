use std::collections::HashMap;

use npurag::config::{BackendPreset, Config, ConfigError, Overrides, AMD_FLM, INTEL_OVMS};

fn env(pairs: &[(&str, &str)]) -> impl Fn(&str) -> Option<String> {
    let map: HashMap<String, String> = pairs
        .iter()
        .map(|(k, v)| (k.to_string(), v.to_string()))
        .collect();
    move |key: &str| map.get(key).cloned()
}

#[test]
fn defaults_ship_both_backend_presets() {
    let config = Config::default();
    assert_eq!(config.backend, AMD_FLM);

    let amd = config.backends.get(AMD_FLM).expect("amd preset");
    assert_eq!(amd.base_url, "http://localhost:52625/v1");
    assert_eq!(amd.embed_model, "embeddinggemma-300m");

    let intel = config.backends.get(INTEL_OVMS).expect("intel preset");
    assert!(intel.base_url.ends_with("/v3"), "got {}", intel.base_url);
}

#[test]
fn resolving_picks_the_active_preset() {
    let config = Config {
        backend: INTEL_OVMS.to_string(),
        ..Default::default()
    };

    let resolved = config.resolve_backend().expect("resolves");
    assert_eq!(resolved.name, INTEL_OVMS);
    assert_eq!(resolved.base_url, "http://localhost:8000/v3");
}

#[test]
fn resolving_an_unknown_backend_names_the_known_ones() {
    let config = Config {
        backend: "nope".to_string(),
        ..Default::default()
    };

    let err = config.resolve_backend().unwrap_err().message();
    assert!(err.contains("nope"), "got {err}");
    assert!(err.contains(AMD_FLM), "got {err}");
    assert!(err.contains(INTEL_OVMS), "got {err}");
}

#[test]
fn a_trailing_slash_in_base_url_is_normalised_away() {
    let mut config = Config::default();
    config.apply_overrides(&Overrides {
        base_url: Some("http://localhost:9000/v1/".to_string()),
        ..Default::default()
    });

    assert_eq!(
        config.resolve_backend().unwrap().base_url,
        "http://localhost:9000/v1"
    );
}

#[test]
fn a_config_file_can_add_its_own_preset() {
    let mut config = Config {
        backend: "custom".to_string(),
        ..Default::default()
    };
    config.backends.insert(
        "custom".to_string(),
        BackendPreset {
            base_url: "http://192.168.0.10:9999/v1".to_string(),
            embed_model: "my-embed".to_string(),
            chat_model: "my-chat".to_string(),
        },
    );
    let resolved = config.resolve_backend().expect("resolves");
    assert_eq!(resolved.name, "custom");
    assert_eq!(resolved.embed_model, "my-embed");
}

#[test]
fn env_overrides_the_file() {
    let mut config = Config::default();
    config.apply_env_with(env(&[
        ("NPURAG_BACKEND", INTEL_OVMS),
        ("NPURAG_BASE_URL", "http://otherhost:8000/v1"),
        ("NPURAG_CHAT_MODEL", "some-llm-int4-ov"),
    ]));

    let resolved = config.resolve_backend().expect("resolves");
    assert_eq!(resolved.name, INTEL_OVMS);
    assert_eq!(resolved.base_url, "http://otherhost:8000/v1");
    assert_eq!(resolved.chat_model, "some-llm-int4-ov");
    assert_eq!(resolved.embed_model, "embeddinggemma-300m");
}

#[test]
fn cli_overrides_win_over_env() {
    let mut config = Config::default();
    config.apply_env_with(env(&[("NPURAG_BASE_URL", "http://from-env:1111/v1")]));
    config.apply_overrides(&Overrides {
        base_url: Some("http://from-cli:2222/v1".to_string()),
        ..Default::default()
    });

    assert_eq!(
        config.resolve_backend().unwrap().base_url,
        "http://from-cli:2222/v1"
    );
}

#[test]
fn overriding_the_url_of_an_unknown_backend_creates_that_preset() {
    let mut config = Config::default();
    config.apply_overrides(&Overrides {
        backend: Some("bespoke".to_string()),
        base_url: Some("http://localhost:1234/v2".to_string()),
        ..Default::default()
    });

    let resolved = config.resolve_backend().expect("resolves");
    assert_eq!(resolved.name, "bespoke");
    assert_eq!(resolved.base_url, "http://localhost:1234/v2");
}

#[test]
fn a_preset_without_a_base_url_is_rejected() {
    let mut config = Config {
        backend: "empty".to_string(),
        ..Default::default()
    };
    config.backends.insert(
        "empty".to_string(),
        BackendPreset {
            base_url: "  ".to_string(),
            embed_model: "e".to_string(),
            chat_model: "c".to_string(),
        },
    );

    let err = config.resolve_backend().unwrap_err().message();
    assert!(err.contains("base_url"), "got {err}");
}

#[test]
fn an_explicit_db_path_beats_the_per_root_default() {
    let mut config = Config::default();
    let root = "/tmp/somewhere";
    let default_path = config
        .db_path_in(Some("/home/u/.local/share/npurag".to_string()), root)
        .expect("default path");
    assert!(default_path.ends_with("index.db"), "got {default_path:?}");

    config.apply_overrides(&Overrides {
        db: Some("/tmp/explicit.db".to_string()),
        ..Default::default()
    });
    assert_eq!(config.db_path_for(root).unwrap(), "/tmp/explicit.db");
}

#[test]
fn different_roots_get_different_index_paths() {
    let config = Config::default();
    let dir = Some("/data".to_string());
    let a = config.db_path_in(dir.clone(), "/home/u/notes").unwrap();
    let b = config.db_path_in(dir, "/home/u/code").unwrap();
    assert_ne!(a, b);
}

#[test]
fn the_index_path_is_the_data_dir_the_root_key_and_index_db() {
    let config = Config::default();
    let key = npurag::config::root_key("/home/u/notes");
    assert_eq!(key.len(), 16);
    assert!(key.chars().all(|c| c.is_ascii_hexdigit() && !c.is_ascii_uppercase()));
    let path = config.db_path_in(Some("/data/".to_string()), "/home/u/notes").unwrap();
    assert_eq!(path, format!("/data/{key}/index.db"));
    let path = config.db_path_in(Some("/data".to_string()), "/home/u/notes").unwrap();
    assert_eq!(path, format!("/data/{key}/index.db"));
}

#[test]
fn the_root_key_is_fnv1a_in_hex() {
    // FNV-1a of the empty string is the offset basis itself.
    assert_eq!(npurag::config::root_key(""), "cbf29ce484222325");
    assert_eq!(npurag::config::root_key("a"), "af63dc4c8601ec8c");
}

#[test]
fn without_a_data_directory_an_explicit_db_is_required() {
    let config = Config::default();
    assert_eq!(
        config.db_path_in(None, "/x"),
        Err(ConfigError::NoDataDirectory)
    );
    assert!(ConfigError::NoDataDirectory.message().contains("--db"));
}

#[test]
fn command_line_excludes_extend_the_configured_ones() {
    let config = Config::default();
    let options = config.walk_options(
        &vec!["*.md".to_string()],
        &vec!["drafts/**".to_string()],
        Some(2),
        true,
    );
    assert_eq!(options.max_file_size, 2 * 1024 * 1024);
    assert!(options.follow_symlinks);
    assert_eq!(options.include_globs, vec!["*.md".to_string()]);
    assert_eq!(options.exclude.len(), config.exclude.len() + 1);
    assert_eq!(options.exclude[..config.exclude.len()], config.exclude[..]);
    assert_eq!(options.exclude.last().unwrap(), "drafts/**");
    assert_eq!(config.walk_options(&vec![], &vec![], None, false).max_file_size, 5 * 1024 * 1024);
}

#[test]
fn chunk_and_extract_options_come_from_the_config() {
    let mut config = Config::default();
    config.chunk_tokens = 256;
    config.chunk_overlap = 16;
    config.external_extractors = false;
    let c = config.chunk_options();
    assert_eq!((c.target_tokens, c.overlap_tokens, c.max_tokens), (256, 16, 2048));
    assert!(!config.extract_options().external_tools);
}

#[test]
fn empty_overrides_change_nothing() {
    let mut config = Config::default();
    config.apply_overrides(&Overrides::default());
    assert_eq!(config.backend, AMD_FLM);
    assert_eq!(config.backends.names(), vec![AMD_FLM.to_string(), INTEL_OVMS.to_string()]);
    assert_eq!(config.db, None);
}

#[test]
fn preset_names_stay_sorted_whatever_the_insertion_order() {
    let mut config = Config::default();
    for name in ["zeta", "alpha", "mid", "amd-flm"] {
        config.backends.insert(
            name.to_string(),
            BackendPreset {
                base_url: format!("http://{name}"),
                embed_model: String::new(),
                chat_model: String::new(),
            },
        );
    }
    assert_eq!(
        config.backends.names(),
        vec!["alpha", "amd-flm", "intel-ovms", "mid", "zeta"]
    );
    assert_eq!(config.backends.get("amd-flm").unwrap().base_url, "http://amd-flm");
    assert!(config.backends.contains_key("mid"));
    assert!(!config.backends.contains_key("nope"));
}

#[test]
fn an_env_base_url_survives_a_command_line_that_leaves_it_alone() {
    let mut config = Config::default();
    config.apply_env_with(env(&[
        ("NPURAG_BASE_URL", "http://from-env:1111/v1"),
        ("NPURAG_DB", "/env/index.db"),
    ]));
    config.apply_overrides(&Overrides {
        db: Some("/cli/index.db".to_string()),
        ..Default::default()
    });
    assert_eq!(config.resolve_backend().unwrap().base_url, "http://from-env:1111/v1");
    assert_eq!(config.db.as_deref(), Some("/cli/index.db"));
}
