use clipboard_history::shortcut::{
    default_shortcuts, detect_handler, format_gsettings_list, parse_gsettings_list, HandlerKind,
    ShortcutError,
};

#[test]
fn environment_names_pick_the_handler() {
    assert_eq!(detect_handler("ubuntu:gnome ubuntu", false, false), HandlerKind::Gnome);
    assert_eq!(detect_handler("x-cinnamon cinnamon", false, false), HandlerKind::Cinnamon);
    assert_eq!(detect_handler("kde plasma", false, false), HandlerKind::Kde);
    assert_eq!(detect_handler("xfce xfce", false, false), HandlerKind::Xfce);
    assert_eq!(detect_handler("mate mate", false, false), HandlerKind::Mate);
    assert_eq!(detect_handler("cosmic pop", false, false), HandlerKind::Cosmic);
    // The desktop names win over the tool heuristic.
    assert_eq!(detect_handler("gnome x", true, true), HandlerKind::Gnome);
}

#[test]
fn tool_heuristic_and_fallback_apply_when_names_say_nothing() {
    assert_eq!(detect_handler("sway ", true, false), HandlerKind::Kde);
    assert_eq!(detect_handler("sway ", false, true), HandlerKind::Xfce);
    assert_eq!(detect_handler("sway ", false, false), HandlerKind::Gnome);
}

#[test]
fn list_values_format_as_the_tool_expects() {
    assert_eq!(format_gsettings_list(&vec![]), "[]");
    assert_eq!(format_gsettings_list(&vec!["a".to_string()]), "['a']");
    assert_eq!(
        format_gsettings_list(&vec!["alpha".to_string(), "beta".to_string()]),
        "['alpha', 'beta']"
    );
}

#[test]
fn list_values_parse_back() {
    assert_eq!(parse_gsettings_list("[]"), Vec::<String>::new());
    assert_eq!(parse_gsettings_list("@as []"), Vec::<String>::new());
    assert_eq!(parse_gsettings_list("   "), Vec::<String>::new());
    assert_eq!(
        parse_gsettings_list("['/org/keybindings/custom0/', '/org/keybindings/custom1/']"),
        vec!["/org/keybindings/custom0/".to_string(), "/org/keybindings/custom1/".to_string()]
    );
    // Double quotes and stray empty fields are tolerated.
    assert_eq!(
        parse_gsettings_list("[\"one\", , 'two' ]"),
        vec!["one".to_string(), "two".to_string()]
    );
    let items = vec!["alpha".to_string(), "beta".to_string()];
    assert_eq!(parse_gsettings_list(&format_gsettings_list(&items)), items);
}

#[test]
fn the_two_default_shortcuts_cover_both_bindings() {
    let shortcuts = default_shortcuts();
    assert_eq!(shortcuts.len(), 2);
    assert_eq!(shortcuts[0].gnome_binding, "<Super>v");
    assert_eq!(shortcuts[0].kde_binding, "Meta+V");
    assert_eq!(shortcuts[1].gnome_binding, "<Ctrl><Alt>v");
    assert_eq!(shortcuts[1].kde_binding, "Ctrl+Alt+V");
    assert_eq!(shortcuts[0].command, shortcuts[1].command);
}

#[test]
fn error_messages_name_the_failure() {
    assert_eq!(
        ShortcutError::DependencyMissing("gsettings".to_string()).message(),
        "Missing dependency: gsettings"
    );
    assert_eq!(
        ShortcutError::CommandFailed { cmd: "xfconf-query".to_string(), stderr: "oops".to_string() }
            .message(),
        "Command 'xfconf-query' failed: oops"
    );
    assert_eq!(ShortcutError::Io("denied".to_string()).message(), "IO Error: denied");
    assert_eq!(
        ShortcutError::ParseError("bad".to_string()).message(),
        "Config parse error: bad"
    );
    assert_eq!(
        ShortcutError::UnsupportedEnvironment("HOME not set".to_string()).message(),
        "Unsupported environment: HOME not set"
    );
}
