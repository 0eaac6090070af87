use list_project::Args;
use list_project::find_root_directory;
use list_project::find_root_directory_by_arg;
use list_project::find_root_directory_by_default;
use list_project::find_root_directory_by_env;

fn args_with(root: Option<&str>) -> Args {
    Args { flag_project_root: root.map(|s| s.to_string()) }
}

#[test]
fn override_beats_environment() {
    let args = args_with(Some("/explicit"));
    let r = find_root_directory(&args, Some("/from-env".to_string()), Some("/home/u".to_string()));
    assert_eq!(r, Ok("/explicit".to_string()));
}

#[test]
fn environment_value_taken_verbatim() {
    let args = args_with(None);
    let r = find_root_directory(
        &args,
        Some("/no/such/path/anywhere".to_string()),
        Some("/home/u".to_string()),
    );
    assert_eq!(r, Ok("/no/such/path/anywhere".to_string()));
}

#[test]
fn empty_environment_value_falls_through() {
    let args = args_with(None);
    let r = find_root_directory(&args, Some(String::new()), Some("/home/u".to_string()));
    assert_eq!(r, Ok("/home/u/projects".to_string()));
}

#[test]
fn default_joins_home_with_projects() {
    let args = args_with(None);
    let r = find_root_directory(&args, None, Some("/home/u".to_string()));
    assert_eq!(r, Ok("/home/u/projects".to_string()));
}

#[test]
fn default_join_keeps_single_separator() {
    let r = find_root_directory_by_default(Some("/home/u/".to_string()));
    assert_eq!(r, Some("/home/u/projects".to_string()));
}

#[test]
fn no_source_fails_with_message() {
    let args = args_with(None);
    let r = find_root_directory(&args, None, None);
    assert_eq!(r, Err("Failed to determine the root directory".to_string()));
}

#[test]
fn empty_environment_and_no_home_fails() {
    let args = args_with(None);
    let r = find_root_directory(&args, Some(String::new()), None);
    assert_eq!(r, Err("Failed to determine the root directory".to_string()));
}

#[test]
fn arg_slot_clones_the_override() {
    assert_eq!(
        find_root_directory_by_arg(&args_with(Some("work"))),
        Some("work".to_string())
    );
    assert_eq!(find_root_directory_by_arg(&args_with(None)), None);
}

#[test]
fn env_slot_requires_non_empty() {
    assert_eq!(
        find_root_directory_by_env(Some("x".to_string())),
        Some("x".to_string())
    );
    assert_eq!(find_root_directory_by_env(Some(String::new())), None);
    assert_eq!(find_root_directory_by_env(None), None);
}

#[test]
fn default_slot_without_home_is_empty() {
    assert_eq!(find_root_directory_by_default(None), None);
}
