use ferrite_core::script::{
    assembler_is_blank, lua_returns_a_value, parse_script, Block, ScriptError, ScriptKind,
    Section,
};

#[test]
fn a_script_with_no_sections_belongs_to_both_halves() {
    let script = parse_script("{$lua}\nprint('hi')").expect("parses");
    assert_eq!(script.enable, script.disable);
    assert_eq!(script.enable, vec![Block::Lua("print('hi')".to_string())]);
    assert_eq!(script.kind(), ScriptKind::DataOnlyLua);
}

#[test]
fn sections_split_before_the_lua_pass() {
    let script = parse_script(
        "{$lua}\n\
         if syntaxcheck then return end\n\
         [ENABLE]\n\
         writeInteger(addr, 100)\n\
         [DISABLE]\n\
         writeInteger(addr, 1)",
    )
    .expect("parses");

    assert_eq!(
        script.lua_blocks(Section::Enable),
        vec!["if syntaxcheck then return end\nwriteInteger(addr, 100)"]
    );
    assert_eq!(
        script.lua_blocks(Section::Disable),
        vec!["if syntaxcheck then return end\nwriteInteger(addr, 1)"]
    );
    assert_eq!(script.kind(), ScriptKind::DataOnlyLua);
}

#[test]
fn the_syntaxcheck_preamble_is_not_generative() {
    assert!(!lua_returns_a_value("if syntaxcheck then return end"));
    assert!(!lua_returns_a_value("if x then return; end"));
    assert!(!lua_returns_a_value("do return end"));
    assert!(!lua_returns_a_value("return"));
}

#[test]
fn a_value_returning_block_is_generative() {
    assert!(lua_returns_a_value("return 'mov eax,1'"));
    assert!(lua_returns_a_value("return string.format('db %X', 0x90)"));
    assert!(lua_returns_a_value("if x then return 'nop' end"));

    let script = parse_script("{$lua}\nreturn 'mov eax,1'").expect("parses");
    assert_eq!(script.kind(), ScriptKind::GenerativeLua);
    assert!(!script.kind().is_runnable());
}

#[test]
fn return_inside_a_comment_or_string_is_not_a_return() {
    assert!(!lua_returns_a_value("-- return 'nope'"));
    assert!(!lua_returns_a_value("--[[ return 'nope' ]]"));
    assert!(!lua_returns_a_value("--[==[ return 'nope' ]==]"));
    assert!(!lua_returns_a_value("x = 'return 1'"));
    assert!(!lua_returns_a_value("x = \"return 1\""));
    assert!(!lua_returns_a_value("x = [[return 1]]"));
    assert!(!lua_returns_a_value("x = 'it\\'s return'"));
    assert!(!lua_returns_a_value("returned = 1"));
    assert!(!lua_returns_a_value("local myreturn = 2"));
}

#[test]
fn assembly_anywhere_makes_it_an_assembler_script() {
    let script = parse_script(
        "[ENABLE]\n\
         aobscanmodule(hook,game.exe,48 8B 4E 18)\n\
         alloc(newmem,$1000,hook)\n\
         newmem:\n\
           mov [rsi+1C],#100\n\
         [DISABLE]\n\
         dealloc(newmem)",
    )
    .expect("parses");
    assert_eq!(script.kind(), ScriptKind::Assembler);
    assert!(!script.kind().is_runnable());
}

#[test]
fn a_lua_block_next_to_assembly_is_still_an_assembler_script() {
    let script = parse_script(
        "[ENABLE]\n\
         {$lua}\n\
         print('setting up')\n\
         {$asm}\n\
         mov eax,1",
    )
    .expect("parses");
    assert_eq!(script.kind(), ScriptKind::Assembler);
}

#[test]
fn assembler_comments_and_blank_lines_are_not_code() {
    assert!(assembler_is_blank(""));
    assert!(assembler_is_blank("\n  \n"));
    assert!(assembler_is_blank("// just a note\n// another"));
    assert!(assembler_is_blank("{ a block comment }"));
    assert!(assembler_is_blank("{ unterminated"));
    assert!(!assembler_is_blank("mov eax,1"));
    assert!(!assembler_is_blank("// note\nmov eax,1"));
    assert!(!assembler_is_blank("{$try}"));
}

#[test]
fn an_asm_directive_closes_a_lua_block() {
    let script =
        parse_script("{$lua}\nprint(1)\n{$asm}\n// nothing\n{$lua}\nprint(2)").expect("parses");
    assert_eq!(script.lua_blocks(Section::Enable), vec!["print(1)", "print(2)"]);
    assert_eq!(script.kind(), ScriptKind::DataOnlyLua);
}

#[test]
fn duplicate_sections_are_refused_the_way_cheat_engine_refuses_them() {
    assert_eq!(
        parse_script("[ENABLE]\nx\n[ENABLE]\ny"),
        Err(ScriptError::DuplicateSection(Section::Enable))
    );
    assert_eq!(
        parse_script("[DISABLE]\nx\n[DISABLE]\ny"),
        Err(ScriptError::DuplicateSection(Section::Disable))
    );
    assert!(parse_script("[ENABLE]\nx\n[DISABLE]\ny").is_ok());
}

#[test]
fn a_section_marker_is_the_whole_line_case_insensitively() {
    let script = parse_script("  [Enable]  \nprint(1)").expect("parses");
    assert_eq!(script.enable.len(), 1);
    assert!(script.disable.is_empty(), "the disable half has no lines");

    let script = parse_script("[ENABLE] extra\nmov eax,1").expect("parses");
    assert_eq!(script.kind(), ScriptKind::Assembler);
}

#[test]
fn an_empty_script_is_empty_not_runnable() {
    for text in ["", "\n\n", "// only a comment", "{$lua}\n-- nothing"] {
        assert_eq!(
            parse_script(text).expect("parses").kind(),
            ScriptKind::Empty,
            "expected {text:?} to be Empty"
        );
    }
    assert!(!ScriptKind::Empty.is_runnable());
}

#[test]
fn one_half_being_unrunnable_makes_the_whole_entry_unrunnable() {
    let script = parse_script(
        "[ENABLE]\n\
         {$lua}\n\
         writeInteger(addr, 100)\n\
         [DISABLE]\n\
         mov [rsi+1C],eax",
    )
    .expect("parses");
    assert_eq!(script.enable.len(), 1);
    assert_eq!(script.kind(), ScriptKind::Assembler);
}

#[test]
fn script_error_message_names_the_section() {
    assert_eq!(
        ScriptError::DuplicateSection(Section::Disable).message(),
        "more than one [DISABLE] section"
    );
    assert_eq!(Section::Enable.marker(), "[ENABLE]");
}

#[test]
fn reasons_describe_each_kind() {
    assert_eq!(ScriptKind::Empty.reason(), "the script is empty");
    assert!(ScriptKind::DataOnlyLua.reason().contains("data-only Lua"));
    assert!(ScriptKind::Assembler.reason().contains("patching its execution"));
}

#[test]
fn crlf_line_endings_split_like_str_lines() {
    let script = parse_script("[ENABLE]\r\n{$lua}\r\nprint(1)\r\n[DISABLE]\r\n").expect("parses");
    assert_eq!(script.lua_blocks(Section::Enable), vec!["print(1)"]);
    assert!(script.disable.is_empty());
}

#[test]
fn the_first_line_to_repeat_a_marker_names_the_section() {
    assert_eq!(
        parse_script("[DISABLE]\na\n[ENABLE]\nb\n[ENABLE]\nc\n[DISABLE]"),
        Err(ScriptError::DuplicateSection(Section::Enable))
    );
    assert_eq!(
        parse_script("[ENABLE]\n[DISABLE]\n[disable]\n[ENABLE]"),
        Err(ScriptError::DuplicateSection(Section::Disable))
    );
    assert_eq!(Section::Enable.marker(), "[ENABLE]");
    assert_eq!(ScriptError::DuplicateSection(Section::Disable).message(), "more than one [DISABLE] section");
}

#[test]
fn lines_go_to_both_halves_before_the_first_marker_and_to_their_own_after() {
    let script = parse_script("{$lua}\nprint(1)\n[ENABLE]\nprint(2)\n[DISABLE]\nprint(3)").expect("parses");
    assert_eq!(script.lua_blocks(Section::Enable), vec!["print(1)\nprint(2)"]);
    assert_eq!(script.lua_blocks(Section::Disable), vec!["print(1)\nprint(3)"]);
}

#[test]
fn a_half_is_classified_the_same_whatever_the_order_of_its_blocks() {
    let a = parse_script("{$lua}\nprint(1)\n{$asm}\nnop").expect("parses");
    let b = parse_script("{$asm}\nnop\n{$lua}\nprint(1)").expect("parses");
    assert_eq!(a.kind(), ScriptKind::Assembler);
    assert_eq!(b.kind(), ScriptKind::Assembler);
    assert_eq!(a.lua_blocks(Section::Enable), vec!["print(1)"]);
    assert_eq!(b.lua_blocks(Section::Enable), vec!["print(1)"]);
}
