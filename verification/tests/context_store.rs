use clawless::context::command::InjectableCommand;
use clawless::context::provider::ContextProvider;
use clawless::context::Context;
use clawless::context::CurrentWorkingDirectory;
use clawless::error::{CommandError, CommandResult, ContextError};

fn assert_send<T: Send>() {}
fn assert_sync<T: Sync>() {}
fn assert_unpin<T: Unpin>() {}

#[test]
fn trait_send() {
    assert_send::<Context>();
}

#[test]
fn trait_sync() {
    assert_sync::<Context>();
}

#[test]
fn trait_unpin() {
    assert_unpin::<Context>();
}

#[test]
fn context_try_new_wraps_the_captured_directory() {
    let cwd = CurrentWorkingDirectory::new("/home/user/project".to_string());
    let context = Context::try_new(Some(cwd)).unwrap();
    assert_eq!(
        context.current_working_directory().get(),
        "/home/user/project"
    );
}

#[test]
fn context_try_new_fails_without_a_directory() {
    assert!(Context::try_new(None).is_err());
}

#[test]
fn lookup_sees_the_registered_value() {
    let mut store: ContextProvider<String> = ContextProvider::new();
    store.add_context(1, "configuration".to_string());
    assert_eq!(store.get(1), Some(&"configuration".to_string()));
    assert!(store.contains(1));
}

#[test]
fn lookup_for_an_absent_key_reports_absence() {
    let store: ContextProvider<String> = ContextProvider::new();
    assert_eq!(store.get(42), None);
    assert!(!store.contains(42));
}

#[test]
fn a_later_registration_overwrites_the_earlier_one() {
    let mut store: ContextProvider<u64> = ContextProvider::new();
    store.add_context(5, 100);
    store.add_context(5, 200);
    assert_eq!(store.get(5), Some(&200));
}

fn no_context_handler(args: u64) -> CommandResult {
    if args == 7 {
        Ok(())
    } else {
        Err(CommandError {
            message: "unexpected arguments".to_string(),
        })
    }
}

fn one_context_handler(args: u64, config: &String) -> CommandResult {
    if config == "ready" && args == 1 {
        Ok(())
    } else {
        Err(CommandError {
            message: "not ready".to_string(),
        })
    }
}

fn two_context_handler(_args: u64, first: &String, second: &String) -> CommandResult {
    if first == "alpha" && second == "beta" {
        Ok(())
    } else {
        Err(CommandError {
            message: "wrong wiring".to_string(),
        })
    }
}

#[test]
fn execute_invokes_a_handler_without_context() {
    let store: ContextProvider<String> = ContextProvider::new();
    let outcome = store.execute(7u64, no_context_handler);
    assert!(matches!(outcome, Ok(Ok(()))));
    let failing = store.execute(8u64, no_context_handler);
    assert!(matches!(failing, Ok(Err(_))));
}

#[test]
fn execute_hands_the_registered_value_to_the_handler() {
    let mut store: ContextProvider<String> = ContextProvider::new();
    store.add_context(3, "ready".to_string());
    let outcome = store.execute(1u64, (one_context_handler, 3u64));
    assert!(matches!(outcome, Ok(Ok(()))));
}

#[test]
fn execute_resolves_two_declared_contexts_in_order() {
    let mut store: ContextProvider<String> = ContextProvider::new();
    store.add_context(1, "alpha".to_string());
    store.add_context(2, "beta".to_string());
    let outcome = store.execute(0u64, (two_context_handler, 1u64, 2u64));
    assert!(matches!(outcome, Ok(Ok(()))));
}

#[test]
fn execute_reports_a_missing_context_before_the_handler_runs() {
    let store: ContextProvider<String> = ContextProvider::new();
    let outcome = store.execute(1u64, (one_context_handler, 9u64));
    assert!(matches!(outcome, Err(ContextError::MissingContext { key: 9 })));
}

#[test]
fn run_reports_the_first_missing_key() {
    let mut store: ContextProvider<String> = ContextProvider::new();
    store.add_context(2, "beta".to_string());
    let command = InjectableCommand::new(two_context_handler, (1u64, 2u64));
    let outcome = command.run(0u64, &store);
    assert!(matches!(outcome, Err(ContextError::MissingContext { key: 1 })));
}

// A handler for a deploy action declaring a dependency on a configuration
// value registered before dispatch.
fn deploy(_args: u64, config: &String) -> CommandResult {
    if config == "first" {
        Ok(())
    } else {
        Err(CommandError {
            message: config.clone(),
        })
    }
}

#[test]
fn a_handler_observes_the_value_registered_in_its_own_run() {
    let mut first_run: ContextProvider<String> = ContextProvider::new();
    first_run.add_context(10, "first".to_string());
    assert!(matches!(
        first_run.execute(0u64, (deploy, 10u64)),
        Ok(Ok(()))
    ));

    let mut second_run: ContextProvider<String> = ContextProvider::new();
    second_run.add_context(10, "second".to_string());
    match second_run.execute(0u64, (deploy, 10u64)) {
        Ok(Err(e)) => assert_eq!(e.message, "second"),
        other => panic!("unexpected outcome: {:?}", other.is_ok()),
    }
}
