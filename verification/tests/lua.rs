use ferrite_core::lua::{
    budget_exceeded, classify_lua_error, LuaError, RunOutput, SectionRun, BUDGET_MARKER,
    DEFAULT_INSTRUCTION_BUDGET,
};
use ferrite_core::script::{parse_script, Block, Script, ScriptKind, Section};

#[test]
fn an_unrunnable_script_is_refused_before_anything_executes() {
    let script = parse_script(
        "[ENABLE]\n\
         {$lua}\n\
         print('this must not run')\n\
         {$asm}\n\
         mov eax,1",
    )
    .expect("parses");
    let result = SectionRun::start(&script, Section::Enable);
    assert_eq!(result.err(), Some(LuaError::NotRunnable(ScriptKind::Assembler)));
}

#[test]
fn a_generative_script_never_reaches_the_interpreter() {
    let script = Script {
        enable: vec![Block::Lua("print('side effect')\nreturn 'mov eax,1'".to_string())],
        disable: Vec::new(),
    };
    assert_eq!(script.kind(), ScriptKind::GenerativeLua);
    assert_eq!(
        SectionRun::start(&script, Section::Enable).err(),
        Some(LuaError::NotRunnable(ScriptKind::GenerativeLua))
    );
}

#[test]
fn each_block_runs_in_order_with_cheat_engines_preamble() {
    let script = parse_script(
        "{$lua}\n\
         print('one')\n\
         {$asm}\n\
         // comments only\n\
         {$lua}\n\
         print('two')",
    )
    .expect("parses");
    let mut run = SectionRun::start(&script, Section::Enable).expect("runnable");
    assert_eq!(run.next_chunk().as_deref(), Some("local syntaxcheck,memrec=...\nprint('one')"));
    run.record(vec!["one".to_string()], Ok(None));
    assert_eq!(run.next_chunk().as_deref(), Some("local syntaxcheck,memrec=...\nprint('two')"));
    run.record(vec!["two".to_string()], Ok(None));
    assert_eq!(run.next_chunk(), None);
    assert_eq!(
        run.finish(),
        Ok(RunOutput { printed: vec!["one".to_string(), "two".to_string()], returned: None })
    );
}

#[test]
fn a_returned_string_or_an_error_ends_the_run() {
    let script = parse_script("{$lua}\nprint(1)\n{$asm}\n\n{$lua}\nprint(2)").expect("parses");
    let mut run = SectionRun::start(&script, Section::Enable).expect("runnable");
    run.record(vec!["1".to_string()], Ok(Some("mov eax,1".to_string())));
    assert_eq!(run.next_chunk(), None, "nothing runs after a block returns a string");
    assert_eq!(
        run.finish(),
        Ok(RunOutput { printed: vec!["1".to_string()], returned: Some("mov eax,1".to_string()) })
    );

    let mut run = SectionRun::start(&script, Section::Enable).expect("runnable");
    run.record(Vec::new(), Err(LuaError::Runtime("boom".to_string())));
    assert_eq!(run.next_chunk(), None);
    assert_eq!(run.finish(), Err(LuaError::Runtime("boom".to_string())));
}

#[test]
fn a_scripts_own_error_is_not_reported_as_a_budget_failure() {
    let text = format!("[string \"cheat table script\"]:1: {BUDGET_MARKER}");
    assert_eq!(classify_lua_error(&text, false, 100), LuaError::BudgetExhausted { budget: 100 });
    assert_eq!(
        classify_lua_error("[string]:2: deliberate", false, 100),
        LuaError::Runtime("[string]:2: deliberate".to_string())
    );
    assert_eq!(
        classify_lua_error("syntax error near 'is'", true, 100),
        LuaError::Syntax("syntax error near 'is'".to_string())
    );
}

#[test]
fn a_syntax_error_is_told_apart_from_a_runtime_one() {
    assert!(!LuaError::Syntax(String::new()).may_have_acted());
    assert!(LuaError::Runtime(String::new()).may_have_acted());
    assert!(LuaError::BudgetExhausted { budget: 1 }.may_have_acted());
    assert!(!LuaError::NotRunnable(ScriptKind::Assembler).may_have_acted());
}

#[test]
fn lua_errors_read_as_sentences() {
    assert_eq!(
        LuaError::BudgetExhausted { budget: 100_000 }.message(),
        "the script was stopped after 100000 operations \u{2014} it may not terminate"
    );
    assert_eq!(
        LuaError::NotRunnable(ScriptKind::Empty).message(),
        "this script won't be run: the script is empty"
    );
    assert_eq!(LuaError::Runtime("x".to_string()).message(), "x");
}

#[test]
fn the_budget_is_spent_once_a_check_passes_it() {
    assert_eq!(DEFAULT_INSTRUCTION_BUDGET, 10_000_000);
    assert!(!budget_exceeded(0, 4096));
    assert!(budget_exceeded(1, 4096));
    assert!(budget_exceeded(100_000, 100_000));
}
