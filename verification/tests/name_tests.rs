use project_name::ProjectName;
use project_name::sanitize_project_name;

#[test]
fn test_snake_case_is_accepted() {
    let project_name = ProjectName::new("lock_firmware", false);
    assert_eq!(project_name, ProjectName(String::from("lock_firmware")));
}

#[test]
fn test_dash_case_is_accepted() {
    let project_name = ProjectName::new("lock-firmware", false);
    assert_eq!(project_name, ProjectName(String::from("lock-firmware")));
}

#[test]
fn test_converted_to_dash_case() {
    let project_name = ProjectName::new("lockFirmware", false);
    assert_eq!(project_name, ProjectName(String::from("lock-firmware")));
}

#[test]
fn test_not_converted_to_dash_case_when_with_force() {
    let project_name = ProjectName::new("lockFirmware", true);
    assert_eq!(project_name, ProjectName(String::from("lockFirmware")));
}

#[test]
fn sanitize_keeps_snake_case() {
    assert_eq!(sanitize_project_name("lock_firmware"), "lock_firmware");
}

#[test]
fn sanitize_keeps_kebab_case() {
    assert_eq!(sanitize_project_name("lock-firmware"), "lock-firmware");
}

#[test]
fn sanitize_rewrites_camel_case() {
    assert_eq!(sanitize_project_name("lockFirmware"), "lock-firmware");
}

#[test]
fn sanitize_rewrites_pascal_case() {
    assert_eq!(sanitize_project_name("LockFirmware"), "lock-firmware");
}

#[test]
fn sanitize_keeps_empty_name() {
    assert_eq!(sanitize_project_name(""), "");
}

#[test]
fn force_keeps_any_name() {
    let project_name = ProjectName::new("Weird  NAME_mix", true);
    assert_eq!(project_name.as_str(), "Weird  NAME_mix");
}

#[test]
fn as_str_projects_the_name() {
    let project_name = ProjectName::new("lockFirmware", false);
    assert_eq!(project_name.as_str(), "lock-firmware");
}

#[test]
fn whitespace_collapses_to_one_separator() {
    assert_eq!(sanitize_project_name("hello  world"), "hello-world");
}

#[test]
fn leading_and_trailing_separators_are_dropped() {
    assert_eq!(sanitize_project_name("_hello-World-"), "hello-world");
}

#[test]
fn digits_stay_inside_words() {
    assert_eq!(sanitize_project_name("abc123Def"), "abc123-def");
}

#[test]
fn mixed_separators_become_hyphens() {
    assert_eq!(sanitize_project_name("Mixed_Case Name"), "mixed-case-name");
}

#[test]
fn sanitizing_twice_changes_nothing() {
    let once = sanitize_project_name("Some Project_NAME");
    let twice = sanitize_project_name(&once);
    assert_eq!(twice, once);
}

#[test]
fn normalizing_twice_changes_nothing() {
    let once = ProjectName::new("crazyProject name", false);
    let twice = ProjectName::new(once.as_str(), false);
    assert_eq!(twice, once);
}

#[test]
fn upper_case_letters_are_lowered() {
    assert_eq!(sanitize_project_name("A"), "a");
}

#[test]
fn non_ascii_characters_pass_through() {
    assert_eq!(sanitize_project_name("caf\u{e9} Shop"), "caf\u{e9}-shop");
}
