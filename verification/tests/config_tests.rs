use gik::config::{config_value, updated_config};

#[test]
fn config_value_takes_first_matching_line_trimmed() {
    let content = "user.name = Alice\nuser.email=a@x.org\nuser.name=Bob\n";
    assert_eq!(config_value(content, "user.name"), Some("Alice".to_string()));
    assert_eq!(config_value(content, "user.email"), Some("a@x.org".to_string()));
    assert_eq!(config_value(content, "missing"), None);
}

#[test]
fn config_value_ignores_lines_without_equals() {
    assert_eq!(config_value("just text\nk = v = w\r\n", "k"), Some("v = w".to_string()));
    assert_eq!(config_value("", "k"), None);
}

#[test]
fn updated_config_sets_existing_key_in_place() {
    let content = "a = 1\nb=2\na=3\n";
    assert_eq!(updated_config(content, "b", "9"), "a=3\nb=9\n");
}

#[test]
fn updated_config_appends_new_key() {
    assert_eq!(updated_config("x=1\nnoise\n", "y", "2"), "x=1\ny=2\n");
    assert_eq!(updated_config("", "k", "v"), "k=v\n");
}

#[test]
fn set_then_get_reads_back_the_value() {
    let content = "user.name = Old\n  stray line\nuser.email=x@y\r\n";
    let updated = updated_config(content, "user.name", "New Name");
    assert_eq!(config_value(&updated, "user.name"), Some("New Name".to_string()));
    assert_eq!(config_value(&updated, "user.email"), Some("x@y".to_string()));
    let added = updated_config(&updated, "core.editor", "vim");
    assert_eq!(config_value(&added, "core.editor"), Some("vim".to_string()));
}
