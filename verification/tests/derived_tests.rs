use std::collections::HashMap;

use wayscope::command::build_args;
use wayscope::config::{
    base_options, default_binary, Config, ConfigError, EnvValue, MonitorDef, MonitorsConfig,
    OptionValue, ProfileDef, ProfilesConfig,
};
use wayscope::numfmt::{i64_dec_string, u64_dec_string};
use wayscope::profile::ResolvedProfile;

fn monitor(width: u32, height: u32, refresh: u32, vrr: bool, hdr: bool, primary: bool) -> MonitorDef {
    MonitorDef { width, height, refreshRate: refresh, vrr, hdr, primary }
}

fn bare_profile() -> ProfileDef {
    ProfileDef {
        monitor: None,
        binary: default_binary(),
        use_hdr: None,
        use_wsi: None,
        options: Vec::new(),
        environment: Vec::new(),
        unset: Vec::new(),
    }
}

fn opt_value(profile: &ResolvedProfile, key: &str) -> Option<OptionValue> {
    profile.options.iter().find(|p| p.0 == key).map(|p| match &p.1 {
        OptionValue::Bool(b) => OptionValue::Bool(*b),
        OptionValue::Int(i) => OptionValue::Int(*i),
        OptionValue::Text(s) => OptionValue::Text(s.clone()),
    })
}

#[test]
fn test_base_options_adaptive_sync_follows_vrr() {
    let with_vrr = base_options(&monitor(1920, 1080, 60, true, false, true));
    let sync = with_vrr.iter().find(|p| p.0 == "adaptive-sync");
    assert!(matches!(sync, Some(&(_, OptionValue::Bool(true)))));

    let without_vrr = base_options(&monitor(1920, 1080, 60, false, false, true));
    assert!(without_vrr.iter().all(|p| p.0 != "adaptive-sync"));
}

#[test]
fn test_example_resolution_with_hdr_and_wsi() {
    let monitors = MonitorsConfig {
        monitors: vec![("main".to_string(), monitor(2560, 1440, 165, true, true, true))],
    };
    let default = ProfileDef {
        use_hdr: Some(true),
        use_wsi: Some(true),
        options: vec![("backend".to_string(), OptionValue::Text("sdl".to_string()))],
        ..bare_profile()
    };
    let profiles = ProfilesConfig { profiles: vec![("default".to_string(), default)] };
    let config = Config { monitors, profiles };

    let profile = config.resolve_profile("default").unwrap();
    assert!(matches!(opt_value(&profile, "output-width"), Some(OptionValue::Int(2560))));
    assert!(matches!(opt_value(&profile, "output-height"), Some(OptionValue::Int(1440))));
    assert!(matches!(opt_value(&profile, "nested-refresh"), Some(OptionValue::Int(165))));
    assert!(matches!(opt_value(&profile, "adaptive-sync"), Some(OptionValue::Bool(true))));
    assert!(matches!(opt_value(&profile, "backend"), Some(OptionValue::Text(s)) if s == "sdl"));

    let env: HashMap<_, _> = profile.environment().into_iter().collect();
    assert_eq!(env.get("DXVK_HDR"), Some(&"1".to_string()));
    assert_eq!(env.get("ENABLE_GAMESCOPE_WSI"), Some(&"1".to_string()));
    assert!(!env.contains_key("DISABLE_HDR_WSI"));
    // The backend is sdl, not wayland: no workaround.
    assert!(!profile.needs_hdr_workaround());
}

#[test]
fn test_example_unset_beats_hdr_layer() {
    let profile = ResolvedProfile {
        name: "test".to_string(),
        monitor_name: "main".to_string(),
        binary: "gamescope".to_string(),
        use_hdr: true,
        use_wsi: true,
        options: Vec::new(),
        user_env: Vec::new(),
        unset_vars: vec!["SDL_VIDEODRIVER".to_string(), "DXVK_HDR".to_string()],
    };
    let env: HashMap<_, _> = profile.environment().into_iter().collect();
    assert!(!env.contains_key("SDL_VIDEODRIVER"));
    assert!(!env.contains_key("DXVK_HDR"));
    assert_eq!(env.get("ENABLE_HDR_WSI"), Some(&"1".to_string()));
    assert_eq!(env.get("PROTON_ENABLE_HDR"), Some(&"1".to_string()));
}

#[test]
fn test_argument_derivation_sorted() {
    let profile = ResolvedProfile {
        name: "test".to_string(),
        monitor_name: "main".to_string(),
        binary: "gamescope".to_string(),
        use_hdr: false,
        use_wsi: false,
        options: vec![
            ("d".to_string(), OptionValue::Text("x".to_string())),
            ("b".to_string(), OptionValue::Bool(false)),
            ("a".to_string(), OptionValue::Bool(true)),
            ("c".to_string(), OptionValue::Int(5)),
        ],
        user_env: Vec::new(),
        unset_vars: Vec::new(),
    };
    let args = build_args(&profile);
    assert_eq!(args, vec!["--a", "--c", "5", "--d", "x"]);
}

#[test]
fn test_environment_is_deterministic_and_sorted() {
    let profile = ResolvedProfile {
        name: "test".to_string(),
        monitor_name: "main".to_string(),
        binary: "gamescope".to_string(),
        use_hdr: true,
        use_wsi: true,
        options: Vec::new(),
        user_env: vec![
            ("ZED".to_string(), "9".to_string()),
            ("ALPHA".to_string(), "1".to_string()),
        ],
        unset_vars: vec!["RADV_PERFTEST".to_string()],
    };
    let first = profile.environment();
    let second = profile.environment();
    assert_eq!(first, second);
    let names: Vec<&String> = first.iter().map(|p| &p.0).collect();
    let mut sorted = names.clone();
    sorted.sort();
    assert_eq!(names, sorted);
}

#[test]
fn test_user_env_overrides_base() {
    let profile = ResolvedProfile {
        name: "test".to_string(),
        monitor_name: "main".to_string(),
        binary: "gamescope".to_string(),
        use_hdr: false,
        use_wsi: false,
        options: Vec::new(),
        user_env: vec![("SDL_VIDEODRIVER".to_string(), "x11".to_string())],
        unset_vars: Vec::new(),
    };
    let env: HashMap<_, _> = profile.environment().into_iter().collect();
    assert_eq!(env.get("SDL_VIDEODRIVER"), Some(&"x11".to_string()));
}

#[test]
fn test_resolve_env_values_become_text() {
    let monitors = MonitorsConfig {
        monitors: vec![("main".to_string(), monitor(1920, 1080, 60, false, false, true))],
    };
    let numbers = ProfileDef {
        environment: vec![
            ("MANGOHUD".to_string(), EnvValue::Int(1)),
            ("NOTE".to_string(), EnvValue::Text("hi".to_string())),
            ("NEGATIVE".to_string(), EnvValue::Int(-7)),
        ],
        ..bare_profile()
    };
    let profiles = ProfilesConfig { profiles: vec![("numbers".to_string(), numbers)] };
    let config = Config { monitors, profiles };
    let profile = config.resolve_profile("numbers").unwrap();
    let env: HashMap<_, _> = profile.environment().into_iter().collect();
    assert_eq!(env.get("MANGOHUD"), Some(&"1".to_string()));
    assert_eq!(env.get("NOTE"), Some(&"hi".to_string()));
    assert_eq!(env.get("NEGATIVE"), Some(&"-7".to_string()));
}

#[test]
fn test_no_primary_monitor_error() {
    let monitors = MonitorsConfig {
        monitors: vec![("main".to_string(), monitor(1920, 1080, 60, false, false, false))],
    };
    let profiles = ProfilesConfig { profiles: vec![("p".to_string(), bare_profile())] };
    let config = Config { monitors, profiles };
    let err = config.resolve_profile("p").unwrap_err();
    assert!(matches!(err, ConfigError::NoPrimaryMonitor));
    assert!(err.message().contains("No primary monitor"));
}

#[test]
fn test_unknown_profile_error_names_profile() {
    let config = Config {
        monitors: MonitorsConfig { monitors: Vec::new() },
        profiles: ProfilesConfig { profiles: Vec::new() },
    };
    let err = config.resolve_profile("ghost").unwrap_err();
    assert!(matches!(err, ConfigError::UnknownProfile { .. }));
    assert_eq!(err.message(), "Unknown profile 'ghost'");
}

#[test]
fn test_unknown_monitor_error_at_resolution() {
    let referencing = ProfileDef { monitor: Some("side".to_string()), ..bare_profile() };
    let config = Config {
        monitors: MonitorsConfig { monitors: Vec::new() },
        profiles: ProfilesConfig { profiles: vec![("p".to_string(), referencing)] },
    };
    let err = config.resolve_profile("p").unwrap_err();
    assert!(matches!(err, ConfigError::UnknownMonitor { .. }));
    assert_eq!(err.message(), "Unknown monitor 'side'");
}

#[test]
fn test_load_rejects_unknown_monitor_reference() {
    let monitors = MonitorsConfig {
        monitors: vec![("main".to_string(), monitor(1920, 1080, 60, false, false, true))],
    };
    let dangling = ProfileDef { monitor: Some("side".to_string()), ..bare_profile() };
    let profiles = ProfilesConfig { profiles: vec![("p".to_string(), dangling)] };
    let err = Config::load(monitors, profiles).unwrap_err();
    assert!(matches!(err, ConfigError::UnknownMonitorRef { .. }));
    assert_eq!(err.message(), "Profile 'p' references unknown monitor 'side'");
}

#[test]
fn test_invalid_env_names_error_lists_every_entry() {
    let bad = ProfileDef {
        environment: vec![("1BAD".to_string(), EnvValue::Int(1))],
        unset: vec!["ALSO BAD".to_string()],
        ..bare_profile()
    };
    let profiles = ProfilesConfig { profiles: vec![("p".to_string(), bad)] };
    let monitors = MonitorsConfig {
        monitors: vec![("main".to_string(), monitor(1920, 1080, 60, false, false, true))],
    };
    let err = Config::load(monitors, profiles).unwrap_err();
    assert_eq!(
        err.message(),
        "Profile 'p': invalid environment variable names: environment key '1BAD', unset entry 'ALSO BAD'"
    );
}

#[test]
fn test_profile_names_sorted() {
    let profiles = ProfilesConfig {
        profiles: vec![
            ("zeta".to_string(), bare_profile()),
            ("alpha".to_string(), bare_profile()),
            ("middle".to_string(), bare_profile()),
        ],
    };
    assert_eq!(profiles.names(), vec!["alpha", "middle", "zeta"]);
}

#[test]
fn test_default_monitor_picks_first_primary() {
    let monitors = MonitorsConfig {
        monitors: vec![
            ("side".to_string(), monitor(1280, 720, 60, false, false, false)),
            ("main".to_string(), monitor(1920, 1080, 60, false, false, true)),
        ],
    };
    let (name, def) = monitors.default_monitor().unwrap();
    assert_eq!(name, "main");
    assert_eq!(def.width, 1920);
}

#[test]
fn test_list_profiles_summary_line() {
    let monitors = MonitorsConfig {
        monitors: vec![("main".to_string(), monitor(1920, 1080, 60, false, true, true))],
    };
    let quiet = ProfileDef { use_wsi: Some(false), ..bare_profile() };
    let profiles = ProfilesConfig { profiles: vec![("quiet".to_string(), quiet)] };
    let config = Config { monitors, profiles };
    let listing = config.list_profiles();
    assert_eq!(listing.len(), 1);
    assert_eq!(listing[0].0, "quiet");
    assert_eq!(listing[0].1, "monitor=main HDR=true WSI=false");
}

#[test]
fn test_list_profiles_lists_unresolvable_with_note() {
    let monitors = MonitorsConfig { monitors: Vec::new() };
    let profiles = ProfilesConfig { profiles: vec![("p".to_string(), bare_profile())] };
    let config = Config { monitors, profiles };
    let listing = config.list_profiles();
    assert_eq!(listing.len(), 1);
    assert_eq!(listing[0].0, "p");
    assert_eq!(
        listing[0].1,
        "unavailable: No primary monitor. Set 'primary: true' on one monitor."
    );
}

#[test]
fn test_list_profiles_notes_unknown_monitor_reference() {
    let dangling = ProfileDef { monitor: Some("ghost".to_string()), ..bare_profile() };
    let config = Config {
        monitors: MonitorsConfig { monitors: Vec::new() },
        profiles: ProfilesConfig { profiles: vec![("p".to_string(), dangling)] },
    };
    let listing = config.list_profiles();
    assert_eq!(listing.len(), 1);
    assert_eq!(listing[0].1, "unavailable: Unknown monitor 'ghost'");
}

#[test]
fn test_config_load_rejects_multiple_primary_monitors() {
    let monitors = MonitorsConfig {
        monitors: vec![
            ("first".to_string(), monitor(1920, 1080, 60, false, false, true)),
            ("middle".to_string(), monitor(1280, 720, 60, false, false, false)),
            ("second".to_string(), monitor(3840, 2160, 120, false, false, true)),
        ],
    };
    let profiles = ProfilesConfig { profiles: vec![("p".to_string(), bare_profile())] };
    let err = Config::load(monitors, profiles).unwrap_err();
    assert!(matches!(err, ConfigError::MultiplePrimaryMonitors { .. }));
    assert_eq!(
        err.message(),
        "Multiple primary monitors: 'first' and 'second'. Set 'primary: true' on one monitor only."
    );
}

#[test]
fn test_decimal_rendering() {
    assert_eq!(u64_dec_string(0), "0");
    assert_eq!(u64_dec_string(7), "7");
    assert_eq!(u64_dec_string(165), "165");
    assert_eq!(u64_dec_string(18446744073709551615), "18446744073709551615");
    assert_eq!(i64_dec_string(0), "0");
    assert_eq!(i64_dec_string(-1), "-1");
    assert_eq!(i64_dec_string(2560), "2560");
    assert_eq!(i64_dec_string(-9223372036854775808), "-9223372036854775808");
}

#[test]
fn test_option_value_display() {
    assert_eq!(OptionValue::Bool(true).display_string(), "true");
    assert_eq!(OptionValue::Bool(false).display_string(), "false");
    assert_eq!(OptionValue::Int(-3).display_string(), "-3");
    assert_eq!(OptionValue::Text("fsr".to_string()).display_string(), "fsr");
}

#[test]
fn test_profile_options_override_base() {
    let monitors = MonitorsConfig {
        monitors: vec![("main".to_string(), monitor(1920, 1080, 60, true, false, true))],
    };
    let custom = ProfileDef {
        options: vec![
            ("backend".to_string(), OptionValue::Text("wayland".to_string())),
            ("adaptive-sync".to_string(), OptionValue::Bool(false)),
        ],
        ..bare_profile()
    };
    let profiles = ProfilesConfig { profiles: vec![("custom".to_string(), custom)] };
    let config = Config { monitors, profiles };
    let profile = config.resolve_profile("custom").unwrap();
    assert!(matches!(opt_value(&profile, "backend"), Some(OptionValue::Text(s)) if s == "wayland"));
    assert!(matches!(opt_value(&profile, "adaptive-sync"), Some(OptionValue::Bool(false))));
    // Only one entry per key survives the overlay.
    assert_eq!(profile.options.iter().filter(|p| p.0 == "backend").count(), 1);
}

#[test]
fn test_workaround_all_combinations() {
    for use_wsi in [false, true] {
        for use_hdr in [false, true] {
            for backend in ["sdl", "wayland"] {
                let profile = ResolvedProfile {
                    name: "t".to_string(),
                    monitor_name: "m".to_string(),
                    binary: "gamescope".to_string(),
                    use_hdr,
                    use_wsi,
                    options: vec![(
                        "backend".to_string(),
                        OptionValue::Text(backend.to_string()),
                    )],
                    user_env: Vec::new(),
                    unset_vars: Vec::new(),
                };
                let expected = use_wsi && use_hdr && backend == "wayland";
                assert_eq!(profile.needs_hdr_workaround(), expected);
            }
        }
    }
}

#[test]
fn test_sorted_views_of_resolved_profile() {
    let profile = ResolvedProfile {
        name: "t".to_string(),
        monitor_name: "m".to_string(),
        binary: "gamescope".to_string(),
        use_hdr: false,
        use_wsi: false,
        options: vec![
            ("zoom".to_string(), OptionValue::Bool(true)),
            ("backend".to_string(), OptionValue::Text("sdl".to_string())),
        ],
        user_env: Vec::new(),
        unset_vars: vec!["B_VAR".to_string(), "A_VAR".to_string()],
    };
    let keys: Vec<String> = profile.sorted_options().into_iter().map(|p| p.0).collect();
    assert_eq!(keys, vec!["backend", "zoom"]);
    assert_eq!(profile.sorted_unset_vars(), vec!["A_VAR", "B_VAR"]);
}
