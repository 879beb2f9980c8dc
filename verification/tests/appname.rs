use stallwatch::appname::{candidates, desktop_name, fallback_name, human_name, search_dirs};

#[test]
fn reads_the_name_from_the_desktop_entry_section() {
    let body = "[Desktop Entry]\nType=Application\nName=Ghostty\nExec=ghostty\n";
    assert_eq!(desktop_name(body).as_deref(), Some("Ghostty"));
}

#[test]
fn ignores_names_in_action_sections() {
    let body =
        "[Desktop Entry]\nName=Zen Browser\n\n[Desktop Action new-window]\nName=New Window\n";
    assert_eq!(desktop_name(body).as_deref(), Some("Zen Browser"));
}

#[test]
fn a_name_before_any_section_header_is_not_used() {
    assert_eq!(
        desktop_name("Name=Stray\n[Desktop Entry]\nName=Real\n").as_deref(),
        Some("Real")
    );
}

#[test]
fn falls_back_to_the_last_component_of_a_reverse_dns_id() {
    assert_eq!(
        human_name("org.videolan.SomeAppThatIsNotInstalled", &Vec::new()),
        "SomeAppThatIsNotInstalled"
    );
}

#[test]
fn leaves_a_plain_unit_name_alone() {
    assert_eq!(human_name("systemd-journald", &Vec::new()), "systemd-journald");
    assert_eq!(human_name("all user apps", &Vec::new()), "all user apps");
}

#[test]
fn empty_input_is_returned_unchanged() {
    assert_eq!(human_name("", &Vec::new()), "");
}

#[test]
fn a_desktop_entry_wins_over_the_unit() {
    let bodies = vec![
        None,
        Some("[Desktop Entry]\nExec=x\n".to_string()),
        Some("[Desktop Entry]\nName=Ghostty\n".to_string()),
    ];
    assert_eq!(human_name("com.mitchellh.ghostty", &bodies), "Ghostty");
}

#[test]
fn the_fallback_capitalises_its_first_letter() {
    assert_eq!(human_name("com.mitchellh.ghostty", &Vec::new()), "Ghostty");
    // The capital of this letter is two letters.
    assert_eq!(human_name("org.example.\u{df}x", &Vec::new()), "SSx");
    // A digit is no letter, so the unit stays as it is.
    assert_eq!(human_name("org.example.7zip", &Vec::new()), "org.example.7zip");
    assert_eq!(fallback_name("org.example.app", true, "A"), "App");
    assert_eq!(fallback_name("org.example.app", false, "A"), "org.example.app");
}

#[test]
fn entries_are_looked_for_in_every_directory() {
    let dirs = search_dirs(&Some("/home/me".to_string()));
    assert!(dirs.iter().any(|d| d.starts_with("/home/me/")), "{dirs:?}");
    let paths = candidates("firefox (flatpak)", &None);
    assert!(!paths.is_empty());
    assert!(paths.iter().all(|p| p.ends_with(".desktop")), "{paths:?}");
}
