use wayscope::command::{build, GamescopeCommand};
use wayscope::config::OptionValue;
use wayscope::profile::ResolvedProfile;

/// Creates a mock profile with common defaults. Use builder methods to customize.
struct MockProfile {
    use_hdr: bool,
    use_wsi: bool,
    binary: String,
    unset_vars: Vec<String>,
}

impl MockProfile {
    fn new() -> Self {
        Self {
            use_hdr: false,
            use_wsi: false,
            binary: "gamescope".to_string(),
            unset_vars: Vec::new(),
        }
    }

    fn with_hdr(mut self, use_hdr: bool) -> Self {
        self.use_hdr = use_hdr;
        self
    }

    fn with_wsi(mut self, use_wsi: bool) -> Self {
        self.use_wsi = use_wsi;
        self
    }

    fn with_binary(mut self, binary: &str) -> Self {
        self.binary = binary.to_string();
        self
    }

    fn with_unset(mut self, unset_vars: Vec<String>) -> Self {
        self.unset_vars = unset_vars;
        self
    }

    fn build(self) -> ResolvedProfile {
        let options = vec![
            ("backend".to_string(), OptionValue::Text("sdl".to_string())),
            ("fullscreen".to_string(), OptionValue::Bool(true)),
            ("output-width".to_string(), OptionValue::Int(2560)),
        ];

        ResolvedProfile {
            name: "test".to_string(),
            monitor_name: "main".to_string(),
            binary: self.binary,
            use_hdr: self.use_hdr,
            use_wsi: self.use_wsi,
            options,
            user_env: Vec::new(),
            unset_vars: self.unset_vars,
        }
    }
}

#[test]
fn test_build_basic_command() {
    let profile = MockProfile::new().build();
    let cmd = build(&profile, &["steam".to_string()]);

    assert_eq!(cmd.binary, "gamescope");
    assert!(cmd.args.contains(&"--fullscreen".to_string()));
    assert!(cmd.args.contains(&"--backend".to_string()));
    assert!(cmd.args.contains(&"sdl".to_string()));
    assert!(!cmd.needs_workaround);
}

#[test]
fn test_build_with_custom_binary() {
    let profile = MockProfile::new()
        .with_binary("/nix/store/xxx/bin/gamescope")
        .build();
    let cmd = build(&profile, &["steam".to_string()]);

    assert_eq!(cmd.binary, "/nix/store/xxx/bin/gamescope");
}

#[test]
fn test_build_with_hdr() {
    let profile = MockProfile::new().with_hdr(true).with_wsi(true).build();
    let cmd = build(&profile, &["steam".to_string()]);

    assert!(cmd.args.contains(&"--hdr-enabled".to_string()));
    assert!(cmd.args.contains(&"--hdr-debug-force-output".to_string()));
    assert!(cmd.args.contains(&"--hdr-debug-force-support".to_string()));
}

#[test]
fn test_display_format() {
    let profile = MockProfile::new().build();
    let cmd = build(&profile, &["steam".to_string(), "-gamepadui".to_string()]);
    let display = cmd.display();

    assert!(display.starts_with("gamescope"));
    assert!(display.contains("-- steam -gamepadui"));
}

#[test]
fn test_display_no_cloning_overhead() {
    let profile = MockProfile::new().build();
    let cmd = build(&profile, &["steam".to_string()]);

    // Call display multiple times - should be efficient
    let d1 = cmd.display();
    let d2 = cmd.display();
    assert_eq!(d1, d2);
}

// ========================================================================
// Unset Variables Tests
// ========================================================================

#[test]
fn test_build_includes_unset_vars() {
    let profile = MockProfile::new()
        .with_unset(vec!["SDL_VIDEODRIVER".to_string(), "DXVK_HDR".to_string()])
        .build();
    let cmd = build(&profile, &["steam".to_string()]);

    // Verify unset vars are passed to GamescopeCommand
    assert_eq!(cmd.unset.len(), 2);
    assert!(cmd.unset.contains(&"SDL_VIDEODRIVER".to_string()));
    assert!(cmd.unset.contains(&"DXVK_HDR".to_string()));
}

#[test]
fn test_build_empty_unset_vars() {
    let profile = MockProfile::new().build();
    let cmd = build(&profile, &["steam".to_string()]);

    assert!(cmd.unset.is_empty());
}

#[test]
fn test_gamescope_command_struct_has_unset() {
    // Verify the GamescopeCommand struct properly stores unset vars
    let cmd = GamescopeCommand {
        binary: "gamescope".to_string(),
        args: vec![],
        env: vec![("KEY".to_string(), "VALUE".to_string())],
        unset: vec!["REMOVE_ME".to_string()],
        child: vec!["game".to_string()],
        needs_workaround: false,
    };

    assert_eq!(cmd.unset.len(), 1);
    assert_eq!(cmd.unset[0], "REMOVE_ME");
}
