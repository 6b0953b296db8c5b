use llmtrim::glob::{glob_match, glob_rec};
use llmtrim::json::Json;
use llmtrim::passthrough::{
    command_for, command_from_arguments, command_in_document, command_requests_passthrough,
    commands_by_id, expand_home, is_keep_line, matches_command, output_requests_passthrough,
    read_invocation, result_call_id, should_passthrough, walk_commands, DEEPEST_NESTING,
};
use llmtrim::text::contains_ignore_ascii_case;
use llmtrim::text_map::TextMap;

/// A document in the library's own form, its members in the order in which they are listed.
fn json(document: &str) -> Json {
    fn convert(value: &serde_json::Value) -> Json {
        match value {
            serde_json::Value::Null => Json::Null,
            serde_json::Value::Bool(yes) => Json::Bool(*yes),
            serde_json::Value::Number(number) => Json::Number(number.to_string()),
            serde_json::Value::String(text) => Json::Str(text.clone()),
            serde_json::Value::Array(items) => Json::Array(items.iter().map(convert).collect()),
            serde_json::Value::Object(members) => Json::Object(
                members.iter().map(|(name, value)| (name.clone(), convert(value))).collect(),
            ),
        }
    }
    convert(&serde_json::from_str(document).expect("a document"))
}

#[test]
fn glob_star_and_literal() {
    assert!(glob_match("*", "anything at all"));
    assert!(glob_match(
        "bash ~/.agents/bin/gpt.sh *",
        "bash ~/.agents/bin/gpt.sh --job abc"
    ));
    assert!(glob_match(
        "*gpt.sh*",
        "bash /Users/x/.agents/bin/gpt.sh foo"
    ));
    assert!(!glob_match(
        "bash ~/.agents/bin/gpt.sh *",
        "bash cargo test"
    ));
    assert!(glob_match("a?c", "abc"));
    assert!(!glob_match("a?c", "ac"));
    assert!(glob_match("", ""));
    assert!(!glob_match("", "x"));
}

#[test]
fn globs_match_all_of_the_text() {
    assert!(glob_match("a*b*c", "a--b--b--c"));
    assert!(!glob_match("a*b*c", "a--b--b--cd"));
    assert!(glob_match("***", ""));
    assert!(glob_match("**a**", "bab"));
    assert_eq!(glob_match("**a**", "bbb"), glob_match("*a*", "bbb"));
    assert!(!glob_match("?", ""));
    assert!(glob_match("*?", "x"));
    // One `?` takes one byte, so a character of two bytes takes two of them.
    assert!(!glob_match("?", "é"));
    assert!(glob_match("??", "é"));
    assert!(glob_rec(b"\xff*", b"\xff\x00"));
    assert!(!glob_match("abc", "abC"));
}

#[test]
fn keep_line_allows_indent() {
    assert!(is_keep_line("LLMTRIM_KEEP: LANE_DELIVERY job=1 sha256=ab"));
    assert!(is_keep_line("  LLMTRIM_KEEP: trailer"));
    assert!(!is_keep_line("LANE_DELIVERY job=1 sha256=ab"));
    assert!(!is_keep_line("note LLMTRIM_KEEP: not a prefix"));
    assert!(is_keep_line("\t\u{3000}LLMTRIM_KEEP:"));
    assert!(!is_keep_line("llmtrim_keep: x"));
    assert!(!is_keep_line(""));
}

#[test]
fn sentinel_in_output_or_command_passthroughs() {
    let dump = "INFO a\nLLMTRIM_TOOL_OUTPUT=passthrough\nLANE_DELIVERY x";
    assert!(should_passthrough(dump, None, &[], None));
    assert!(should_passthrough(
        "INFO only",
        Some("LLMTRIM_TOOL_OUTPUT=passthrough bash ~/.agents/bin/gpt.sh"),
        &[],
        None
    ));
    assert!(!should_passthrough("INFO only", Some("echo hi"), &[], None));
    assert!(should_passthrough(
        "INFO only",
        Some("echo hi"),
        &["*".into()],
        None
    ));
}

#[test]
fn star_pattern_passthroughs_without_a_command() {
    assert!(should_passthrough("INFO only", None, &["*".into()], None));
    assert!(!should_passthrough("INFO only", None, &["gpt.sh *".into()], None));
}

#[test]
fn command_glob_passthroughs_matching_bash() {
    assert!(should_passthrough(
        "INFO only",
        Some("bash ~/.agents/bin/gpt.sh --job 1"),
        &["bash ~/.agents/bin/gpt.sh *".into()],
        None
    ));
    assert!(!should_passthrough(
        "INFO only",
        Some("cargo test"),
        &["bash ~/.agents/bin/gpt.sh *".into()],
        None
    ));
    // A second pattern is asked where the first does not match.
    assert!(should_passthrough(
        "INFO only",
        Some("cargo test"),
        &["bash *".into(), "cargo *".into()],
        None
    ));
}

#[test]
fn the_sentinel_must_be_a_whole_line() {
    for asks in [
        "LLMTRIM_TOOL_OUTPUT=passthrough",
        "  llmtrim_tool_output=PASSTHROUGH\t",
        "a\r\nLLMTRIM_TOOL_OUTPUT=passthrough\r\nb",
        "a\nLLMTRIM_TOOL_OUTPUT=passthrough\n",
    ] {
        assert!(output_requests_passthrough(asks), "{asks:?}");
    }
    for does_not in [
        "",
        "\n\n",
        "x LLMTRIM_TOOL_OUTPUT=passthrough",
        "LLMTRIM_TOOL_OUTPUT=\npassthrough",
        "LLMTRIM_TOOL_OUTPUT=passthrough!",
    ] {
        assert!(!output_requests_passthrough(does_not), "{does_not:?}");
    }
}

#[test]
fn the_sentinel_may_be_anywhere_in_a_command() {
    assert!(command_requests_passthrough("env llmtrim_TOOL_output=PASSthrough x"));
    assert!(!command_requests_passthrough("LLMTRIM_TOOL_OUTPUT=pass"));
    assert!(contains_ignore_ascii_case("xABCx", "bC"));
    assert!(!contains_ignore_ascii_case("É", "é"));
    assert!(!contains_ignore_ascii_case("", "a"));
}

#[test]
fn a_tilde_expands_to_the_home_directory() {
    assert_eq!(expand_home("~/a ~/b ~c", Some("/h")), "/h/a /h/b ~c");
    assert_eq!(expand_home("~/a", None), "~/a");
    assert_eq!(expand_home("~/a", Some("")), "~/a");
    assert_eq!(expand_home("~~/", Some("~/x")), "~~/x/");
    assert!(matches_command("bash ~/x *", "bash /h/x 1", Some("/h")));
    assert!(matches_command("bash /h/x *", "bash ~/x 1", Some("/h")));
    assert!(!matches_command("bash ~/x *", "bash /h/x 1", None));
    assert!(matches_command("~/a?~/b", "/h/a ~/b", Some("/h")));
    assert!(!matches_command("~/a", "/g/a", Some("/h")));
}

#[test]
fn anthropic_tool_use_command_maps_to_result() {
    let raw = json(
        r#"{
            "messages": [
                {"role":"assistant","content":[
                    {"type":"tool_use","id":"call-1","name":"Bash",
                     "input":{"command":"bash ~/.agents/bin/gpt.sh --job 1"}}
                ]},
                {"role":"user","content":[
                    {"type":"tool_result","tool_use_id":"call-1","content":"stdout"}
                ]}
            ]
        }"#,
    );
    let cmds = commands_by_id(&raw);
    assert_eq!(
        command_for(&cmds, &raw, "/messages/1/content/0/content"),
        Some("bash ~/.agents/bin/gpt.sh --job 1")
    );
}

#[test]
fn openai_chat_and_responses_command_maps() {
    let chat = json(
        r#"{
            "messages": [
                {"role":"assistant","tool_calls":[
                    {"id":"c1","type":"function",
                     "function":{"name":"Bash","arguments":"{\"command\":\"ls -l\"}"}}
                ]},
                {"role":"tool","tool_call_id":"c1","content":"total 0"}
            ]
        }"#,
    );
    let cmds = commands_by_id(&chat);
    assert_eq!(
        command_for(&cmds, &chat, "/messages/1/content"),
        Some("ls -l")
    );

    let responses = json(
        r#"{
            "input": [
                {"type":"function_call","call_id":"r1","name":"bash",
                 "arguments":{"command":"pwd"}},
                {"type":"function_call_output","call_id":"r1","output":"/tmp"}
            ]
        }"#,
    );
    let cmds = commands_by_id(&responses);
    assert_eq!(
        command_for(&cmds, &responses, "/input/1/output"),
        Some("pwd")
    );
}

#[test]
fn arguments_are_an_object_or_a_document_that_holds_one() {
    let among = |document: &str| command_from_arguments(Some(&json(document)));
    assert_eq!(among(r#"{"command":"ls"}"#), Some("ls".to_string()));
    assert_eq!(among(r#""{\"command\":\"ls\\n\"}""#), Some("ls\n".to_string()));
    for none in [
        r#"{"command":1}"#,
        r#"{"other":"ls"}"#,
        r#""not json""#,
        r#""[\"command\"]""#,
        r#""{\"command\":null}""#,
        r#"[{"command":"ls"}]"#,
        "null",
    ] {
        assert_eq!(among(none), None, "{none}");
    }
    assert_eq!(command_from_arguments(None), None);
}

#[test]
fn the_command_of_a_parsed_document_is_its_member_of_that_name() {
    let entry = |name: &str, text: Option<&str>| (name.to_string(), text.map(str::to_string));
    assert_eq!(
        command_in_document(Some(vec![entry("a", Some("x")), entry("command", Some("ls"))])),
        Some("ls".to_string())
    );
    assert_eq!(command_in_document(Some(vec![entry("command", None)])), None);
    assert_eq!(command_in_document(Some(vec![entry("Command", Some("ls"))])), None);
    assert_eq!(command_in_document(Some(Vec::new())), None);
    assert_eq!(command_in_document(None), None);
}

#[test]
fn an_invocation_is_read_by_its_shape() {
    fn members(document: &str) -> Vec<(String, Json)> {
        match json(document) {
            Json::Object(members) => members,
            _ => panic!("an object"),
        }
    }
    let read = |document: &str, arguments: Option<&str>, function: Option<&str>| {
        read_invocation(
            &members(document),
            arguments.map(str::to_string),
            function.map(str::to_string),
        )
    };
    let pair = |id: &str, command: &str| Some((id.to_string(), command.to_string()));
    assert_eq!(
        read(r#"{"type":"tool_use","id":"a","input":{"command":"x"}}"#, Some("y"), Some("z")),
        pair("a", "x")
    );
    // A `tool_use` without a command is tried as the last shape, never as a `function_call`.
    assert_eq!(
        read(r#"{"type":"tool_use","id":"a","input":{}}"#, Some("y"), Some("z")),
        pair("a", "z")
    );
    assert_eq!(
        read(r#"{"type":"function_call","call_id":"b","id":"a"}"#, Some("y"), Some("z")),
        pair("b", "y")
    );
    assert_eq!(read(r#"{"type":"function_call","id":"a"}"#, Some("y"), None), pair("a", "y"));
    // A `call_id` that is no string is not replaced by the `id`.
    assert_eq!(
        read(r#"{"type":"function_call","call_id":7,"id":"a"}"#, Some("y"), Some("z")),
        pair("a", "z")
    );
    assert_eq!(read(r#"{"type":"function_call","call_id":7,"id":"a"}"#, Some("y"), None), None);
    assert_eq!(read(r#"{"id":"a"}"#, Some("y"), Some("z")), pair("a", "z"));
    assert_eq!(read(r#"{"id":"a"}"#, Some("y"), None), None);
    assert_eq!(read(r#"{"id":1}"#, None, Some("z")), None);
}

#[test]
fn of_several_invocations_with_one_id_the_last_counts() {
    let raw = json(
        r#"[
            {"type":"tool_use","id":"a","input":{"command":"first"}},
            {"type":"tool_use","id":"b","input":{"command":"other"}},
            [{"type":"tool_use","id":"a","input":{"command":"second"}}]
        ]"#,
    );
    let commands = commands_by_id(&raw);
    assert_eq!(commands.len(), 2);
    assert_eq!(commands.get("a").map(String::as_str), Some("second"));
    assert_eq!(commands.get("b").map(String::as_str), Some("other"));
    // An object comes before what it holds.
    let nested = json(
        r#"{"type":"tool_use","id":"a","input":{"command":"outer",
            "x":{"type":"tool_use","id":"a","input":{"command":"inner"}}}}"#,
    );
    assert_eq!(commands_by_id(&nested).get("a").map(String::as_str), Some("inner"));
    assert_eq!(commands_by_id(&json("17")).len(), 0);
}

#[test]
fn the_nearest_id_around_a_result_counts() {
    let raw = json(
        r#"{"call_id":"root","a":{"tool_call_id":"outer","call_id":"unused",
            "b":[{"tool_use_id":1,"call_id":"inner","c":{"d":"x"}}, "y"]}}"#,
    );
    assert_eq!(result_call_id(&raw, "/a/b/0/c/d"), Some("inner"));
    assert_eq!(result_call_id(&raw, "/a/b/1"), Some("outer"));
    assert_eq!(result_call_id(&raw, "/a/b/9/z"), Some("outer"));
    assert_eq!(result_call_id(&raw, "/a"), Some("outer"));
    // The document as a whole is asked only where the pointer is empty.
    assert_eq!(result_call_id(&raw, ""), Some("root"));
    assert_eq!(result_call_id(&raw, "/z"), None);
    assert_eq!(result_call_id(&raw, "z"), None);
    assert_eq!(command_for(&commands_by_id(&raw), &raw, "/a"), None);
}

#[test]
fn pointers_address_what_they_address_in_any_reader() {
    let document = r#"{"":{"":"e"},"a/b":1,"m~n":2,"~1":3,"~01":4,"list":[10,[20,{"k":null}],"s"],
        "0":"zero","x":{"00":"double"}}"#;
    let value: serde_json::Value = serde_json::from_str(document).expect("a document");
    let own = json(document);
    for pointer in [
        "", "/", "//", "a", "/a~1b", "/a/b", "/m~0n", "/m~n", "/~01", "/~001", "/~1", "/~", "/~2",
        "/list", "/list/0", "/list/00", "/list/+1", "/list/-0", "/list/1/1/k", "/list/1/1/k/x",
        "/list/3", "/list/", "/list/2", "/list/2/0", "/list/18446744073709551616",
        "/list/99999999999999999999999999", "/list/1a", "/list/\u{0661}", "/0", "/x/00", "/x/",
        "/list/01", "/list/1/0",
    ] {
        let expected = value.pointer(pointer).map(|found| json(&found.to_string()));
        assert_eq!(own.pointer(pointer), expected.as_ref(), "{pointer:?}");
    }
}

#[test]
fn a_written_object_and_the_object_give_the_same_command() {
    for (document, command) in [
        (r#"{"command":"ls -l"}"#, Some("ls -l")),
        (r#"{"timeout":-120,"command":"ls","env":{"A":[1,null,true]},"why":"x"}"#, Some("ls")),
        (
            r#"{"command":"a\"b\\c\n\t\r\b\f\u0000\u001f~"}"#,
            Some("a\"b\\c\n\t\r\u{8}\u{c}\u{0}\u{1f}~"),
        ),
        (r#"{"command":["ls"]}"#, None),
        (r#"{"command":null}"#, None),
        (r#"{"command":7}"#, None),
        (r#"{"Command":"ls"}"#, None),
        ("{}", None),
    ] {
        let object = json(document);
        let value: serde_json::Value = serde_json::from_str(document).expect("a document");
        let command = command.map(str::to_string);
        let written = serde_json::to_string(&value).expect("written");
        assert_eq!(command_from_arguments(Some(&object)), command, "{document}");
        assert_eq!(command_from_arguments(Some(&Json::Str(written))), command, "{document}");
    }
    let beyond = ['\u{e9}', '\u{2028}', '\u{1f980}'];
    let controls: String = (0u8..0x80).map(char::from).chain(beyond).collect();
    let value = serde_json::Value::String(controls.clone());
    let document = format!(r#"{{"command":{value}}}"#);
    assert_eq!(command_from_arguments(Some(&Json::Str(document))), Some(controls));
}

#[test]
fn a_string_that_holds_no_object_gives_no_command() {
    for document in [
        "null",
        "true",
        "false",
        "12",
        r#""command""#,
        "[]",
        r#"[{"command":"ls"}]"#,
        "",
        "{",
    ] {
        let arguments = Json::Str(document.to_string());
        assert_eq!(command_from_arguments(Some(&arguments)), None, "{document}");
    }
}

#[test]
fn nesting_is_read_to_its_greatest_depth() {
    let around = |depth: usize| {
        let arrays = depth - 1;
        let document = format!(
            r#"{{"command":"ls","deep":{}{}}}"#,
            "[".repeat(arrays),
            "]".repeat(arrays)
        );
        command_from_arguments(Some(&Json::Str(document)))
    };
    assert_eq!(around(usize::from(DEEPEST_NESTING)), Some("ls".to_string()));
    assert_eq!(around(usize::from(DEEPEST_NESTING) + 1), None);
}

#[test]
fn a_later_part_of_a_document_overrides_an_earlier_one() {
    let call = |id: &str, command: &str| {
        format!(r#"{{"type":"tool_use","id":"{id}","input":{{"command":"{command}"}}}}"#)
    };
    let (a, b, c) = (call("a", "old"), call("b", "kept"), call("a", "new"));
    let commands = commands_by_id(&json(&format!(r#"[[{a},{b}],"text",7,null,[{c}]]"#)));
    assert_eq!(commands.get("a").map(String::as_str), Some("new"));
    assert_eq!(commands.get("b").map(String::as_str), Some("kept"));
    let commands = commands_by_id(&json(&format!("[[{a},{b}],[{c}],false]")));
    assert_eq!(commands.get("a").map(String::as_str), Some("new"));
    assert_eq!(commands.get("c"), None);
}

#[test]
fn numbers_beside_the_command_do_not_hide_it() {
    let beside = |number: &str| {
        let document = format!(r#"{{"command":"ls","n":{number}}}"#);
        command_from_arguments(Some(&Json::Str(document)))
    };
    let long = "9".repeat(308);
    let fraction = format!("0.{}5e400", "0".repeat(100));
    let shrunk = format!("{}e-400", "9".repeat(700));
    for number in [
        "0",
        "-0",
        "0.5",
        "-2.50e-3",
        "1E+5",
        "1e5",
        "9223372036854775808",
        "-9223372036854775809",
        "18446744073709551615",
        "18446744073709551616",
        "18446744073709551619.5",
        "99999999999999999999.99999999999999999999",
        long.as_str(),
        fraction.as_str(),
        shrunk.as_str(),
        "1.7975e308",
        "17975e304",
        "1e-400",
        "1e-99999999999",
        "0e99999999999",
        "0.000E+400",
    ] {
        assert_eq!(beside(number), Some("ls".to_string()), "{number}");
    }
    // What is no number, and what is too great to be held, is not read at all.
    for number in ["01", "-", "1.", ".5", "1e", "1e+", "+1", "1.8e308", "1e309", "1e99999999999"] {
        assert_eq!(beside(number), None, "{number}");
    }
    assert_eq!(beside(&"9".repeat(310)), None);
}

#[test]
fn walking_a_document_overrides_what_was_entered() {
    let mut commands = TextMap::new();
    commands.insert("a".to_string(), "old".to_string());
    commands.insert("b".to_string(), "kept".to_string());
    for scalar in ["null", "true", "7", "\"text\""] {
        walk_commands(&json(scalar), &mut commands);
    }
    assert_eq!(commands.get("a").map(String::as_str), Some("old"));
    walk_commands(
        &json(
            r#"[{"type":"tool_use","id":"a","input":{"command":"new"}},
                {"type":"function_call","call_id":"c","arguments":"{\"command\":\"more\",\"t\":0.5}"}]"#,
        ),
        &mut commands,
    );
    assert_eq!(commands.get("a").map(String::as_str), Some("new"));
    assert_eq!(commands.get("b").map(String::as_str), Some("kept"));
    assert_eq!(commands.get("c").map(String::as_str), Some("more"));
}
