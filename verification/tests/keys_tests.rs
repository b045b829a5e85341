use thearf::keys::{
    binding_key_names, check_keys, get_keys_from_file, keysym_lookup, keysym_press_check,
    keysym_table, name_to_press, BindingError, KeyState, ModifiersState,
};

const RETURN: u32 = 0xff0d;
const KEY_R: u32 = 0x72;

fn mods(ctrl: bool, alt: bool, shift: bool, caps_lock: bool, logo: bool) -> ModifiersState {
    ModifiersState { ctrl, alt, shift, caps_lock, logo }
}

fn none() -> ModifiersState {
    mods(false, false, false, false, false)
}

fn table() -> Vec<(String, u32)> {
    vec![("Return".to_string(), RETURN), ("r".to_string(), KEY_R)]
}

/// A stand-in for libxkbcommon's name lookup, over the keys these tests use.
fn resolve(name: String) -> u32 {
    assert!(!name.contains('\0'), "NUL in a key name");
    match name.as_str() {
        "Return" => RETURN,
        "r" => KEY_R,
        "y" => 0x79,
        _ => 0,
    }
}

#[test]
fn modifier_names() {
    let all = mods(true, true, true, true, true);
    for n in ["ctrl", "alt", "shift", "super", "caps_lock"] {
        assert_eq!(name_to_press(n, &all), 1);
        assert_eq!(name_to_press(n, &none()), 0);
    }
    assert_eq!(name_to_press("logo", &all), 0);
    assert_eq!(name_to_press("Return", &all), 0);
    assert_eq!(name_to_press("super", &mods(false, false, false, false, true)), 1);
    assert_eq!(name_to_press("super", &mods(true, true, true, true, false)), 0);
}

#[test]
fn table_lookup_takes_first() {
    let t = vec![("a".to_string(), 1), ("a".to_string(), 2), ("b".to_string(), 3)];
    assert_eq!(keysym_lookup(&t, "a"), Some(1));
    assert_eq!(keysym_lookup(&t, "b"), Some(3));
    assert_eq!(keysym_lookup(&t, "c"), None);
}

#[test]
fn keysym_check() {
    assert_eq!(keysym_press_check(RETURN, "Return", &table()), 1);
    assert_eq!(keysym_press_check(KEY_R, "Return", &table()), 0);
}

#[test]
fn check_keys_needs_press_and_modifiers() {
    let keys = vec!["super".to_string(), "Return".to_string()];
    let logo = mods(false, false, false, false, true);
    assert!(check_keys((KeyState::Pressed, keys.clone(), logo), &RETURN, &table()));
    assert!(!check_keys((KeyState::Released, keys.clone(), logo), &RETURN, &table()));
    assert!(!check_keys((KeyState::Pressed, keys.clone(), none()), &RETURN, &table()));
    assert!(!check_keys((KeyState::Pressed, keys, logo), &KEY_R, &table()));
}

#[test]
fn check_keys_counts_matches() {
    // A binding of a single key fires on that key alone.
    let keys = vec!["Return".to_string()];
    assert!(check_keys((KeyState::Pressed, keys, none()), &RETURN, &table()));
}

const CONFIG: &str = "# bindings\nterminal = super Return\nrefresh = super shift r\n\nclose_win = r\n";

#[test]
fn bindings_fire_in_order() {
    let logo = mods(false, false, false, false, true);
    let scan = get_keys_from_file(CONFIG, KeyState::Pressed, &logo, &RETURN, resolve);
    assert_eq!(scan.commands, vec!["terminal".to_string()]);
    assert_eq!(scan.error, None);
    assert!(scan.intercepts());

    let both = mods(false, false, true, false, true);
    // Held modifiers that a binding does not name do not keep it from firing.
    let scan = get_keys_from_file(CONFIG, KeyState::Pressed, &both, &KEY_R, resolve);
    assert_eq!(scan.commands, vec!["refresh".to_string(), "close_win".to_string()]);

    let scan = get_keys_from_file(CONFIG, KeyState::Pressed, &none(), &KEY_R, resolve);
    assert_eq!(scan.commands, vec!["close_win".to_string()]);
}

#[test]
fn nothing_fires_on_release() {
    let logo = mods(false, false, false, false, true);
    let scan = get_keys_from_file(CONFIG, KeyState::Released, &logo, &RETURN, resolve);
    assert!(scan.commands.is_empty());
    assert_eq!(scan.error, None);
    assert!(!scan.intercepts());
}

#[test]
fn equals_signs_are_not_keys() {
    let scan = get_keys_from_file("go = = r =", KeyState::Pressed, &none(), &KEY_R, resolve);
    assert_eq!(scan.commands, vec!["go".to_string()]);
}

#[test]
fn blank_line_stops_matching() {
    let scan = get_keys_from_file("a = r\n   \nb = r\n", KeyState::Pressed, &none(), &KEY_R, resolve);
    assert_eq!(scan.commands, vec!["a".to_string()]);
    assert_eq!(scan.error, Some(BindingError::NoCommand));
    let scan = get_keys_from_file("  \n", KeyState::Released, &none(), &KEY_R, resolve);
    assert_eq!(scan.error, Some(BindingError::NoCommand));
}

#[test]
fn binding_without_keys() {
    let scan = get_keys_from_file("cmd =\n", KeyState::Pressed, &none(), &KEY_R, resolve);
    assert_eq!(scan.error, Some(BindingError::NoKeys));
    let scan = get_keys_from_file("cmd =\n", KeyState::Released, &none(), &KEY_R, resolve);
    assert_eq!(scan.error, None);
}

#[test]
fn nul_in_key_name() {
    let scan = get_keys_from_file("cmd = a\0b\n", KeyState::Pressed, &none(), &KEY_R, resolve);
    assert_eq!(scan.error, Some(BindingError::NulInKeyName));
}

#[test]
fn too_many_modifier_keys() {
    let mut line = String::from("cmd");
    for _ in 0..256 {
        line.push_str(" ctrl");
    }
    line.push_str(" r\n");
    let ctrl = mods(true, false, false, false, false);
    let scan = get_keys_from_file(&line, KeyState::Pressed, &ctrl, &KEY_R, resolve);
    assert_eq!(scan.error, Some(BindingError::TooManyKeys));
}

#[test]
fn too_many_bindings() {
    let config = "x = r\n".repeat(300);
    let scan = get_keys_from_file(&config, KeyState::Pressed, &none(), &KEY_R, resolve);
    assert_eq!(scan.commands.len(), 256);
    assert_eq!(scan.error, Some(BindingError::TooManyBindings));
    let config = "x = r\n".repeat(255);
    let scan = get_keys_from_file(&config, KeyState::Pressed, &none(), &KEY_R, resolve);
    assert_eq!(scan.commands.len(), 255);
    assert_eq!(scan.error, None);
}

#[test]
fn key_names_of_bindings() {
    assert_eq!(
        binding_key_names(CONFIG),
        vec!["Return".to_string(), "r".to_string(), "r".to_string()]
    );
    assert_eq!(binding_key_names("a = b\0c\n  \ncmd\nx = y"), vec!["y".to_string()]);
}

#[test]
fn keysym_table_of_config() {
    let t = keysym_table(CONFIG, resolve);
    assert_eq!(
        t,
        vec![("Return".to_string(), RETURN), ("r".to_string(), KEY_R), ("r".to_string(), KEY_R)]
    );
    // Keys with a NUL character are never looked up.
    assert_eq!(keysym_table("a = b\0c\nx = y\n", resolve), vec![("y".to_string(), 0x79)]);
}

#[test]
fn scan_reports_keysyms_used() {
    let logo = mods(false, false, false, false, true);
    let scan = get_keys_from_file(CONFIG, KeyState::Pressed, &logo, &RETURN, resolve);
    assert_eq!(scan.keysyms, keysym_table(CONFIG, resolve));
}
