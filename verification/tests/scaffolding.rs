use clawless::input::CommandName;
use clawless::scaffold::{
    check_main_rs, command_file_boilerplate, commands_rs_boilerplate, find_clawless_project,
    find_main_rs, find_parent_module, greeting_command_boilerplate, insert_mod_line,
    main_rs_boilerplate, str_contains, ScaffoldError, SourceFile,
};

fn path(segments: &[&str]) -> Vec<String> {
    segments.iter().map(|s| s.to_string()).collect()
}

fn file(segments: &[&str], contents: &str) -> SourceFile {
    SourceFile {
        path: path(segments),
        contents: contents.to_string(),
    }
}

fn lines(text: &[&str]) -> Vec<String> {
    text.iter().map(|s| s.to_string()).collect()
}

#[test]
fn check_clawless_project_finds_main_in_src_directory() {
    let files = vec![file(&["work", "src", "main.rs"], "clawless::main!();")];
    let project = find_clawless_project(&path(&["work"]), &files).unwrap();
    assert_eq!(project, path(&["work"]));
}

#[test]
fn check_clawless_project_finds_main_in_directory() {
    let files = vec![file(&["work", "main.rs"], "clawless::main!();")];
    let found = find_main_rs(&path(&["work"]), &files).unwrap();
    assert_eq!(found, path(&["work", "main.rs"]));
}

#[test]
fn check_clawless_project_finds_main_in_parent_directory() {
    let files = vec![file(&["work", "src", "main.rs"], "clawless::main!();")];
    let project = find_clawless_project(&path(&["work", "src", "subdir"]), &files).unwrap();
    assert_eq!(project, path(&["work"]));
}

#[test]
fn check_clawless_project_fails_without_main_rs() {
    let files: Vec<SourceFile> = Vec::new();
    let outcome = find_clawless_project(&path(&["work"]), &files);
    assert_eq!(outcome, Err(ScaffoldError::MainRsNotFound));
}

#[test]
fn check_clawless_project_fails_without_clawless_macro() {
    let files = vec![file(&["work", "src", "main.rs"], "fn main() {}")];
    let outcome = find_clawless_project(&path(&["work"]), &files);
    assert_eq!(outcome, Err(ScaffoldError::MainRsMissingMacro));
}

#[test]
fn check_main_rs_accepts_the_entry_macro() {
    assert!(check_main_rs(&"mod commands;\nclawless::main!();\n".to_string()).is_ok());
    assert!(check_main_rs(&"fn main() {}".to_string()).is_err());
}

#[test]
fn str_contains_finds_substrings_exactly() {
    assert!(str_contains(&"clawless::main!();".to_string(), "clawless::main!"));
    assert!(!str_contains(&"clawless::maim!();".to_string(), "clawless::main!"));
    assert!(str_contains(&"abc".to_string(), ""));
}

#[test]
fn create_command_file_writes_boilerplate() {
    let boilerplate = command_file_boilerplate(&"command".to_string());
    assert!(boilerplate.contains("pub struct CommandArgs"));
    assert!(boilerplate
        .contains("pub async fn command(args: CommandArgs, context: Context) -> CommandResult"));
}

#[test]
fn command_boilerplate_cases_the_struct_name() {
    let boilerplate = command_file_boilerplate(&"my_cmd".to_string());
    assert!(boilerplate.contains("pub struct MyCmdArgs"));
    assert!(boilerplate.contains("pub async fn my_cmd(args: MyCmdArgs"));
}

#[test]
fn find_parent_module_locates_file_module() {
    let files = vec![file(&["proj", "src", "commands.rs"], "mod test;")];
    let name = CommandName::new("test".to_string(), Vec::new());
    let parent = find_parent_module(&path(&["proj"]), &name, &files).unwrap();
    assert_eq!(parent, path(&["proj", "src", "commands.rs"]));
}

#[test]
fn find_parent_module_locates_mod_rs_module() {
    let files = vec![file(&["proj", "src", "commands", "test", "mod.rs"], "")];
    let name = CommandName::new("cmd".to_string(), vec!["test".to_string()]);
    let parent = find_parent_module(&path(&["proj"]), &name, &files).unwrap();
    assert_eq!(parent, path(&["proj", "src", "commands", "test", "mod.rs"]));
}

#[test]
fn find_parent_module_refuses_a_missing_module() {
    let files: Vec<SourceFile> = Vec::new();
    let name = CommandName::new("cmd".to_string(), vec!["missing".to_string()]);
    let outcome = find_parent_module(&path(&["proj"]), &name, &files);
    assert_eq!(outcome, Err(ScaffoldError::ParentModuleMissing));
}

#[test]
fn insert_mod_statement_inserts_after_use_in_commands_rs() {
    let content = lines(&["use crate::foo;", "use crate::bar;", "", "fn helper() {}"]);
    let updated = insert_mod_line(&content, &"mod mycmd;".to_string());
    assert_eq!(
        updated,
        lines(&[
            "use crate::foo;",
            "use crate::bar;",
            "mod mycmd;",
            "",
            "fn helper() {}",
        ])
    );
}

#[test]
fn insert_mod_statement_does_not_duplicate_existing_mod() {
    let content = lines(&["mod existing;", "mod mycmd;"]);
    let updated = insert_mod_line(&content, &"mod mycmd;".to_string());
    assert_eq!(updated, content);
}

#[test]
fn insert_mod_statement_inserts_after_existing_use_and_mod() {
    let content = lines(&["use crate::x;", "mod command;", "", "// implementation"]);
    let updated = insert_mod_line(&content, &"mod another_command;".to_string());
    assert_eq!(
        updated,
        lines(&[
            "use crate::x;",
            "mod command;",
            "mod another_command;",
            "",
            "// implementation",
        ])
    );
}

#[test]
fn insert_mod_statement_lands_after_a_leading_doc_comment() {
    let content = lines(&["//! Module docs.", "//! More docs.", "fn later() {}"]);
    let updated = insert_mod_line(&content, &"mod fresh;".to_string());
    assert_eq!(
        updated,
        lines(&[
            "//! Module docs.",
            "//! More docs.",
            "fn later() {}",
            "mod fresh;",
        ])
    );
}

#[test]
fn command_name_parses_slash_notation() {
    let name = CommandName::try_from(&"db/migrate".to_string()).unwrap();
    assert_eq!(name.name(), "migrate");
    assert_eq!(name.parent_modules(), &path(&["db"]));
}

#[test]
fn command_name_lowercases_its_input() {
    let name = CommandName::try_from(&"DB".to_string()).unwrap();
    assert_eq!(name.name(), "db");
}

#[test]
fn command_name_filename_is_snake_cased() {
    let name = CommandName::new("myCmd".to_string(), Vec::new());
    assert_eq!(name.filename(), "my_cmd.rs");
}

#[test]
fn command_name_path_from_project_root() {
    let name = CommandName::new("migrate".to_string(), vec!["db".to_string()]);
    let full = name.path_from_project_root(&path(&["my-app"]));
    assert_eq!(full, path(&["my-app", "src", "commands", "db", "migrate.rs"]));
}

#[test]
fn overwrite_main_rs_updates_file() {
    assert!(main_rs_boilerplate().contains("clawless::main!();"));
}

#[test]
fn create_commands_rs_creates_file() {
    assert!(commands_rs_boilerplate().contains("clawless::commands!();"));
}

#[test]
fn create_greeting_command_creates_file() {
    assert!(greeting_command_boilerplate().contains("pub async fn greet"));
}
