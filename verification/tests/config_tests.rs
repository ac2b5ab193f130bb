use std::collections::HashMap;

use wayscope::config::{
    default_binary, is_valid_env_var_name, validate_env_var_names, Config, EnvValue, MonitorDef,
    MonitorsConfig, OptionValue, ProfileDef, ProfilesConfig,
};

fn monitor(width: u32, height: u32, refresh: u32, vrr: bool, hdr: bool, primary: bool) -> MonitorDef {
    MonitorDef { width, height, refreshRate: refresh, vrr, hdr, primary }
}

fn bare_profile() -> ProfileDef {
    ProfileDef {
        monitor: None,
        binary: default_binary(),
        use_hdr: None,
        use_wsi: None,
        options: Vec::new(),
        environment: Vec::new(),
        unset: Vec::new(),
    }
}

fn test_config() -> Config {
    let monitors = MonitorsConfig {
        monitors: vec![
            (
                "main".to_string(),
                monitor(2560, 1440, 165, true, true, true),
            ),
            ("tv".to_string(), monitor(3840, 2160, 120, false, true, false)),
        ],
    };

    let default = ProfileDef {
        use_hdr: Some(true),
        use_wsi: Some(true),
        options: vec![("backend".to_string(), OptionValue::Text("sdl".to_string()))],
        ..bare_profile()
    };
    let autohdr = ProfileDef { use_wsi: Some(false), ..bare_profile() };
    let couch = ProfileDef {
        monitor: Some("tv".to_string()),
        use_hdr: Some(true),
        binary: "/custom/gamescope".to_string(),
        ..bare_profile()
    };
    let performance = ProfileDef {
        use_hdr: Some(false),
        options: vec![("fsr-upscaling".to_string(), OptionValue::Bool(true))],
        ..bare_profile()
    };

    let profiles = ProfilesConfig {
        profiles: vec![
            ("default".to_string(), default),
            ("autohdr".to_string(), autohdr),
            ("couch".to_string(), couch),
            ("performance".to_string(), performance),
        ],
    };
    Config { monitors, profiles }
}

#[test]
fn test_resolve_default_profile() {
    let config = test_config();
    let profile = config.resolve_profile("default").unwrap();

    assert_eq!(profile.name, "default");
    assert_eq!(profile.monitor_name, "main");
    assert!(profile.use_hdr);
    assert!(profile.use_wsi);
    assert_eq!(profile.binary, "gamescope");
}

#[test]
fn test_resolve_with_custom_monitor() {
    let config = test_config();
    let profile = config.resolve_profile("couch").unwrap();

    assert_eq!(profile.monitor_name, "tv");
    assert_eq!(profile.binary, "/custom/gamescope");
    let width = profile.options.iter().find(|p| p.0 == "output-width");
    assert!(matches!(width, Some(&(_, OptionValue::Int(3840)))));
}

#[test]
fn test_hdr_defaults_to_monitor() {
    let config = test_config();
    let profile = config.resolve_profile("autohdr").unwrap();
    assert!(profile.use_hdr); // Inherits from monitor.hdr
}

#[test]
fn test_wsi_defaults_to_true() {
    let config = test_config();
    let profile = config.resolve_profile("performance").unwrap();
    assert!(profile.use_wsi);
}

#[test]
fn test_unknown_profile_error() {
    let config = test_config();
    assert!(config.resolve_profile("nonexistent").is_err());
}

#[test]
fn test_list_profiles() {
    let config = test_config();
    let profiles = config.list_profiles();
    assert_eq!(profiles.len(), 4);
}

#[test]
fn test_unset_in_resolved_profile() {
    let with_unset = ProfileDef {
        use_wsi: Some(true),
        environment: vec![("CUSTOM".to_string(), EnvValue::Text("value".to_string()))],
        unset: vec!["SDL_VIDEODRIVER".to_string(), "CUSTOM".to_string()],
        ..bare_profile()
    };
    let profiles = ProfilesConfig { profiles: vec![("with-unset".to_string(), with_unset)] };
    let monitors = MonitorsConfig {
        monitors: vec![("main".to_string(), monitor(2560, 1440, 165, false, false, true))],
    };
    let config = Config { monitors, profiles };

    let profile = config.resolve_profile("with-unset").unwrap();
    assert_eq!(profile.unset_vars.len(), 2);
    assert!(profile.unset_vars.contains(&"SDL_VIDEODRIVER".to_string()));
    assert!(profile.unset_vars.contains(&"CUSTOM".to_string()));

    // Verify unset works in environment
    let env = profile.environment();
    let env_map: HashMap<_, _> = env.into_iter().collect();
    assert!(!env_map.contains_key("SDL_VIDEODRIVER"));
    assert!(!env_map.contains_key("CUSTOM"));
}

// ========================================================================
// Environment Variable Name Validation Tests
// ========================================================================

#[test]
fn test_valid_env_var_names() {
    // Standard POSIX-compliant names
    assert!(is_valid_env_var_name("MY_VAR"));
    assert!(is_valid_env_var_name("_PRIVATE"));
    assert!(is_valid_env_var_name("var123"));
    assert!(is_valid_env_var_name("A"));
    assert!(is_valid_env_var_name("_"));
    assert!(is_valid_env_var_name("SDL_VIDEODRIVER"));
    assert!(is_valid_env_var_name("DXVK_HDR"));
    assert!(is_valid_env_var_name("PROTON_ENABLE_WAYLAND"));
}

#[test]
fn test_invalid_env_var_names() {
    // Empty string
    assert!(!is_valid_env_var_name(""));
    // Starts with digit
    assert!(!is_valid_env_var_name("123VAR"));
    assert!(!is_valid_env_var_name("1"));
    // Contains equals sign (would break shell parsing)
    assert!(!is_valid_env_var_name("MY=VAR"));
    assert!(!is_valid_env_var_name("VAR="));
    // Contains space
    assert!(!is_valid_env_var_name("MY VAR"));
    assert!(!is_valid_env_var_name(" VAR"));
    // Contains special characters
    assert!(!is_valid_env_var_name("VAR$NAME"));
    assert!(!is_valid_env_var_name("VAR-NAME"));
    assert!(!is_valid_env_var_name("VAR.NAME"));
}

#[test]
fn test_validate_env_var_names_success() {
    let env_keys = vec![
        "VALID_VAR".to_string(),
        "_ANOTHER".to_string(),
        "third123".to_string(),
    ];
    let unset = vec!["SDL_VIDEODRIVER".to_string()];

    let result = validate_env_var_names("test-profile", &env_keys, &unset);
    assert!(result.is_ok());
}

#[test]
fn test_validate_env_var_names_invalid_env_key() {
    let env_keys = vec!["VALID".to_string(), "INVALID=KEY".to_string()];
    let unset = vec![];

    let result = validate_env_var_names("test-profile", &env_keys, &unset);
    assert!(result.is_err());
    let err = result.unwrap_err().message();
    assert!(err.contains("INVALID=KEY"));
    assert!(err.contains("test-profile"));
}

#[test]
fn test_validate_env_var_names_invalid_unset() {
    let env_keys: Vec<String> = vec![];
    let unset = vec!["".to_string()]; // Empty string is invalid

    let result = validate_env_var_names("test-profile", &env_keys, &unset);
    assert!(result.is_err());
    let err = result.unwrap_err().message();
    assert!(err.contains("unset entry"));
}

// ========================================================================
// Integration Tests for Validation During Config Load
// ========================================================================

#[test]
fn test_config_load_accepts_duplicate_unset() {
    let monitors = MonitorsConfig {
        monitors: vec![("main".to_string(), monitor(1920, 1080, 60, false, false, true))],
    };
    let test = ProfileDef {
        unset: vec![
            "SDL_VIDEODRIVER".to_string(),
            "DXVK_HDR".to_string(),
            "SDL_VIDEODRIVER".to_string(),
        ],
        ..bare_profile()
    };
    let profiles = ProfilesConfig { profiles: vec![("test".to_string(), test)] };

    // Config should load successfully even with duplicates
    let config = Config::load(monitors, profiles).unwrap();
    let profile = config.resolve_profile("test").unwrap();

    // Duplicates are preserved (unsetting twice is harmless)
    assert_eq!(profile.unset_vars.len(), 3);
    assert!(profile.unset_vars.contains(&"SDL_VIDEODRIVER".to_string()));
    assert!(profile.unset_vars.contains(&"DXVK_HDR".to_string()));
}

#[test]
fn test_config_load_rejects_invalid_env_name() {
    let monitors = MonitorsConfig {
        monitors: vec![("main".to_string(), monitor(1920, 1080, 60, false, false, true))],
    };
    let test = ProfileDef {
        environment: vec![
            ("VALID_VAR".to_string(), EnvValue::Text("1".to_string())),
            ("INVALID=VAR".to_string(), EnvValue::Text("2".to_string())),
        ],
        ..bare_profile()
    };
    let profiles = ProfilesConfig { profiles: vec![("test".to_string(), test)] };

    let result = Config::load(monitors, profiles);
    assert!(result.is_err());
    let err = result.unwrap_err().message();
    assert!(err.contains("invalid environment variable"));
}

#[test]
fn test_config_load_rejects_invalid_unset_name() {
    let monitors = MonitorsConfig {
        monitors: vec![("main".to_string(), monitor(1920, 1080, 60, false, false, true))],
    };
    let test = ProfileDef { unset: vec!["".to_string()], ..bare_profile() };
    let profiles = ProfilesConfig { profiles: vec![("test".to_string(), test)] };

    let result = Config::load(monitors, profiles);
    assert!(result.is_err());
    let err = result.unwrap_err().message();
    assert!(err.contains("invalid environment variable"));
}
