//! Per-result exemptions from tool-output windowing.
//!
//! A courier that must deliver a command's output verbatim cannot recover from clipping. Three
//! signals exempt one result, and that one only:
//!
//! 1. A configured command glob that matches the producing command. `*` matches every command.
//! 2. The producing command assigns `LLMTRIM_TOOL_OUTPUT=passthrough`.
//! 3. A line of the result is exactly that assignment.
//!
//! Apart from these, lines that start with [`KEEP_PREFIX`] are kept where windowing still runs.
use vstd::prelude::*;
use vstd::utf8::{encode_utf8, is_ascii_chars_encode_utf8};

use crate::glob::{glob_match, glob_matches, law_star_matches_everything, STAR};
use crate::json::{
    find_member, get, member, names_differ, plain, resolve, string, string_in, written, Json,
};
use crate::text::{
    bytes_occur_ignoring_case, chars_of, contains_ignore_ascii_case, copy_of, end_of_text, find_last,
    holds_at, is_white_space, last_position_of, lemma_replace_absent, lower, lower_bytes, occurs, replace,
    replaced, same_ignoring_case, same_text, start_of_text, starts_with, string_of, trim,
    trim_start,
};
use crate::text_map::TextMap;

verus! {

/// Windowing always retains a line that starts with this, after any white space.
pub const KEEP_PREFIX: &'static str = "LLMTRIM_KEEP:";

/// The assignment that asks for passthrough, in a command or as a line of output.
pub const PASSTHROUGH_SENTINEL: &'static str = "LLMTRIM_TOOL_OUTPUT=passthrough";

/// The pattern that exempts every result.
pub const EVERYTHING: &'static str = "*";

// ----- the three signals --------------------------------------------------------------------

/// Whether `text[from..to]` is one of the lines of `text`, without its newline.
pub open spec fn is_line(text: Seq<char>, from: int, to: int) -> bool {
    &&& 0 <= from <= to <= text.len()
    &&& from == 0 || text[from - 1] == '\n'
    &&& to == text.len() || text[to] == '\n'
    &&& forall|i: int| from <= i < to ==> text[i] != '\n'
}

/// Whether `line`, trimmed, is the sentinel, ASCII letters compared without case.
pub open spec fn is_sentinel(line: Seq<char>) -> bool {
    lower(trim(line)) == lower(PASSTHROUGH_SENTINEL@)
}

/// Whether some line of the output is the sentinel.
pub open spec fn output_asks(text: Seq<char>) -> bool {
    exists|from: int, to: int| #[trigger] is_line(text, from, to) && is_sentinel(
        text.subrange(from, to),
    )
}

/// Whether the command holds the sentinel, ASCII letters compared without case.
pub open spec fn command_asks(command: Seq<char>) -> bool {
    bytes_occur_ignoring_case(encode_utf8(command), encode_utf8(PASSTHROUGH_SENTINEL@))
}

/// `text` with each `~/` replaced by the home directory and a slash, where there is one.
pub open spec fn expand(text: Seq<char>, home: Option<Seq<char>>) -> Seq<char> {
    match home {
        Some(home) => if home.len() > 0 {
            replace(text, "~/"@, home + "/"@)
        } else {
            text
        },
        None => text,
    }
}

/// Whether one text as a glob matches another, byte for byte.
pub open spec fn glob(pat: Seq<char>, text: Seq<char>) -> bool {
    glob_matches(encode_utf8(pat), encode_utf8(text))
}

/// Whether a pattern matches a command, either of them as written or with its `~/` expanded.
pub open spec fn covers(pat: Seq<char>, command: Seq<char>, home: Option<Seq<char>>) -> bool {
    ||| glob(pat, command)
    ||| glob(expand(pat, home), command)
    ||| glob(pat, expand(command, home))
    ||| glob(expand(pat, home), expand(command, home))
}

/// The text behind an optional string.
pub open spec fn view_of(text: Option<&str>) -> Option<Seq<char>> {
    match text {
        Some(text) => Some(text@),
        None => None,
    }
}

/// Whether a tool result ships as it is.
pub open spec fn passes_through(
    text: Seq<char>,
    command: Option<Seq<char>>,
    patterns: Seq<Seq<char>>,
    home: Option<Seq<char>>,
) -> bool {
    ||| output_asks(text)
    ||| patterns.contains(EVERYTHING@)
    ||| match command {
        Some(command) => command_asks(command) || exists|i: int|
            0 <= i < patterns.len() && covers(#[trigger] patterns[i], command, home),
        None => false,
    }
}

/// Whether this tool result must ship byte-identical. `home` is the home directory, where the
/// environment names one.
pub fn should_passthrough(
    text: &str,
    command: Option<&str>,
    patterns: &[String],
    home: Option<&str>,
) -> (yes: bool)
    ensures
        yes == passes_through(
            text@,
            view_of(command),
            patterns@.map_values(|pattern: String| pattern@),
            view_of(home),
        ),
{
    let ghost wanted = patterns@.map_values(|pattern: String| pattern@);
    if output_requests_passthrough(text) {
        return true;
    }
    let mut i: usize = 0;
    while i < patterns.len()
        invariant
            i <= patterns@.len(),
            wanted == patterns@.map_values(|pattern: String| pattern@),
            forall|k: int| 0 <= k < i ==> #[trigger] wanted[k] != EVERYTHING@,
        decreases patterns@.len() - i,
    {
        if same_text(patterns[i].as_str(), EVERYTHING) {
            assert(wanted[i as int] == EVERYTHING@);
            return true;
        }
        i += 1;
    }
    let given = match command {
        Some(given) => given,
        None => return false,
    };
    if command_requests_passthrough(given) {
        return true;
    }
    let mut i: usize = 0;
    while i < patterns.len()
        invariant
            i <= patterns@.len(),
            wanted == patterns@.map_values(|pattern: String| pattern@),
            command == Some(given),
            forall|k: int| 0 <= k < i ==> !covers(#[trigger] wanted[k], given@, view_of(home)),
        decreases patterns@.len() - i,
    {
        assert(wanted[i as int] == patterns@[i as int]@);
        if matches_command(patterns[i].as_str(), given, home) {
            return true;
        }
        i += 1;
    }
    false
}

/// Whether a line starts with the prefix, after any white space.
pub open spec fn keeps(line: Seq<char>) -> bool {
    starts_with(trim_start(line), KEEP_PREFIX@)
}

/// Whether windowing must keep a line.
pub fn is_keep_line(line: &str) -> (yes: bool)
    ensures
        yes == keeps(line@),
{
    let chars = chars_of(line);
    let start = start_of_text(&chars, 0, chars.len());
    assert(chars@.subrange(0, chars@.len() as int) =~= chars@);
    assert(chars@.subrange(start as int, chars@.len() as int) =~= chars@.skip(start as int));
    holds_at(&chars, start, &chars_of(KEEP_PREFIX))
}

/// Whether some line of the output asks for passthrough.
pub fn output_requests_passthrough(text: &str) -> (yes: bool)
    ensures
        yes == output_asks(text@),
{
    let chars = chars_of(text);
    let sentinel = chars_of(PASSTHROUGH_SENTINEL);
    let mut from: usize = 0;
    let mut to: usize = 0;
    loop
        invariant
            chars@ == text@,
            sentinel@ == PASSTHROUGH_SENTINEL@,
            from <= to <= chars@.len(),
            from == 0 || chars@[from - 1] == '\n',
            forall|i: int| from <= i < to ==> chars@[i] != '\n',
            forall|a: int, b: int| #[trigger]
                is_line(chars@, a, b) && a < from ==> !is_sentinel(chars@.subrange(a, b)),
        decreases chars@.len() - to,
    {
        if to == chars.len() || chars[to] == '\n' {
            assert(is_line(chars@, from as int, to as int));
            let start = start_of_text(&chars, from, to);
            let end = end_of_text(&chars, start, to);
            if same_ignoring_case(&chars, start, end, &sentinel) {
                return true;
            }
            assert forall|a: int, b: int| #[trigger]
                is_line(chars@, a, b) && a <= to implies !is_sentinel(chars@.subrange(a, b)) by {
                if a >= from {
                    if a > from {
                        assert(chars@[a - 1] == '\n');
                    }
                    if b < to {
                        assert(chars@[b] == '\n');
                    } else if to < b {
                        assert(chars@[to as int] == '\n');
                    }
                }
            }
            if to == chars.len() {
                return false;
            }
            from = to + 1;
        }
        to += 1;
    }
}

/// Whether the producing command asks for passthrough.
pub fn command_requests_passthrough(command: &str) -> (yes: bool)
    ensures
        yes == command_asks(command@),
{
    proof {
        reveal_strlit("LLMTRIM_TOOL_OUTPUT=passthrough");
    }
    contains_ignore_ascii_case(command, PASSTHROUGH_SENTINEL)
}

/// Glob-match `command` against `pat`. A `~/` in either expands to the home directory, so a
/// pattern written with a tilde still hits an expanded path.
pub fn matches_command(pat: &str, command: &str, home: Option<&str>) -> (yes: bool)
    ensures
        yes == covers(pat@, command@, view_of(home)),
{
    if glob_match(pat, command) {
        return true;
    }
    let expanded_pat = expand_home(pat, home);
    let pat_changes = !same_text(expanded_pat.as_str(), pat);
    if pat_changes && glob_match(expanded_pat.as_str(), command) {
        return true;
    }
    let expanded_command = expand_home(command, home);
    let command_changes = !same_text(expanded_command.as_str(), command);
    if command_changes && glob_match(pat, expanded_command.as_str()) {
        return true;
    }
    pat_changes && command_changes && glob_match(expanded_pat.as_str(), expanded_command.as_str())
}

/// `text` with each `~/` replaced by the home directory and a slash, where there is one.
pub fn expand_home(text: &str, home: Option<&str>) -> (expanded: String)
    ensures
        expanded@ == expand(text@, view_of(home)),
{
    let home = match home {
        Some(home) => home,
        None => return copy_of(text),
    };
    if home.is_empty() {
        return copy_of(text);
    }
    proof {
        reveal_strlit("~/");
    }
    let mut directory = copy_of(home);
    directory.append("/");
    let expanded = replaced(
        &chars_of(text),
        &chars_of("~/"),
        &chars_of(directory.as_str()),
    );
    let whole = string_of(&expanded, 0, expanded.len());
    assert(whole@ =~= expanded@);
    whole
}

// ----- which command produced a result ------------------------------------------------------

/// The text behind an optional string.
pub open spec fn text_behind(text: Option<String>) -> Option<Seq<char>> {
    match text {
        Some(text) => Some(text@),
        None => None,
    }
}

/// The members of an object, each with its text where it is a string.
pub open spec fn texts_behind(members: Option<Vec<(String, Option<String>)>>) -> Option<
    Seq<(Seq<char>, Option<Seq<char>>)>,
> {
    match members {
        Some(members) => Some(
            members@.map_values(|entry: (String, Option<String>)| (entry.0@, text_behind(entry.1))),
        ),
        None => None,
    }
}

/// What `serde_json` reads in a document: the members of an object, in the order in which its map
/// walks them, each with its text where it is a string; nothing where the document does not parse
/// or is not an object.
pub uninterp spec fn parsed_texts(document: Seq<char>) -> Option<
    Seq<(Seq<char>, Option<Seq<char>>)>,
>;

/// The members of an object, each with its text where it is a string.
pub open spec fn texts_in(members: Seq<(String, Json)>) -> Seq<(Seq<char>, Option<Seq<char>>)> {
    members.map_values(|entry: (String, Json)| (entry.0@, string(entry.1)))
}

/// The deepest nesting of arrays and objects that `serde_json` reads.
pub const DEEPEST_NESTING: u8 = 127;

/// Whether a value is one that reading its written form gives back: nested no deeper than
/// [`DEEPEST_NESTING`], with numbers that can be held, and no name twice among its members.
pub open spec fn reads_back(value: Json) -> bool {
    &&& plain(value, DEEPEST_NESTING as nat)
    &&& value matches Json::Object(members) ==> names_differ(members@)
}

/// Whether `texts` are the members of `value`, in whatever order; nothing where it is no object.
pub open spec fn are_texts_of(
    texts: Option<Seq<(Seq<char>, Option<Seq<char>>)>>,
    value: Json,
) -> bool {
    match value {
        Json::Object(members) => {
            &&& texts is Some
            &&& forall|entry: (Seq<char>, Option<Seq<char>>)| #[trigger]
                texts->0.contains(entry) <==> texts_in(members@).contains(entry)
        },
        _ => texts is None,
    }
}

/// Parses a document with `serde_json::from_str` and hands out the members of an object, each with
/// its text where it is a string. The contract says that what comes out depends on the document
/// alone, under the name [`parsed_texts`], and that reading gives back what was written: of a
/// document that is the written form of a value for which [`reads_back`] holds, the members of that
/// value come out, and nothing where it is no object. What comes out of other documents is left
/// unsaid: those with white space between the tokens, with other escapes, with a name twice, or
/// with a number so close to the greatest one that rounding decides whether it is held.
#[verifier::external_body]
fn parse_texts(document: &str) -> (members: Option<Vec<(String, Option<String>)>>)
    ensures
        texts_behind(members) == parsed_texts(document@),
        forall|value: Json|
            #[trigger] written(value) == document@ && reads_back(value) ==> are_texts_of(
                texts_behind(members),
                value,
            ),
{
    match serde_json::from_str::<serde_json::Value>(document) {
        Ok(serde_json::Value::Object(members)) => Some(
            members
                .into_iter()
                .map(|(name, value)| (name, value.as_str().map(str::to_owned)))
                .collect(),
        ),
        Ok(serde_json::Value::Null) => None,
        Ok(serde_json::Value::Bool(_)) => None,
        Ok(serde_json::Value::Number(_)) => None,
        Ok(serde_json::Value::String(_)) => None,
        Ok(serde_json::Value::Array(_)) => None,
        Err(_) => None,
    }
}

/// The text of the first member called `name`.
pub open spec fn text_named(
    members: Seq<(Seq<char>, Option<Seq<char>>)>,
    name: Seq<char>,
) -> Option<Seq<char>>
    decreases members.len(),
{
    if members.len() == 0 {
        None
    } else if members[0].0 == name {
        members[0].1
    } else {
        text_named(members.skip(1), name)
    }
}

/// The command in a parsed document.
pub open spec fn parsed_command(
    members: Option<Seq<(Seq<char>, Option<Seq<char>>)>>,
) -> Option<Seq<char>> {
    match members {
        Some(members) => text_named(members, "command"@),
        None => None,
    }
}

/// The command in a document, once it has been parsed.
pub fn command_in_document(members: Option<Vec<(String, Option<String>)>>) -> (command: Option<
    String,
>)
    ensures
        text_behind(command) == parsed_command(texts_behind(members)),
{
    let list = match &members {
        Some(list) => list,
        None => return None,
    };
    let ghost texts = list@.map_values(
        |entry: (String, Option<String>)| (entry.0@, text_behind(entry.1)),
    );
    let mut i: usize = 0;
    assert(texts.skip(0) =~= texts);
    while i < list.len()
        invariant
            i <= list@.len(),
            texts_behind(members) == Some(texts),
            texts == list@.map_values(
                |entry: (String, Option<String>)| (entry.0@, text_behind(entry.1)),
            ),
            text_named(texts, "command"@) == text_named(texts.skip(i as int), "command"@),
        decreases list@.len() - i,
    {
        assert(texts.skip(i as int).skip(1) =~= texts.skip(i + 1));
        assert(texts.skip(i as int)[0] == texts[i as int]);
        if same_text(list[i].0.as_str(), "command") {
            return match &list[i].1 {
                Some(text) => Some(copy_of(text.as_str())),
                None => None,
            };
        }
        i += 1;
    }
    None
}

/// The command among a call's arguments, which are an object, or a document that holds one.
pub open spec fn command_among(arguments: Option<Json>) -> Option<Seq<char>> {
    match arguments {
        Some(Json::Str(document)) => parsed_command(parsed_texts(document@)),
        Some(Json::Object(members)) => string_in(member(members@, "command"@)),
        _ => None,
    }
}

proof fn lemma_text_named(members: Seq<(Seq<char>, Option<Seq<char>>)>, name: Seq<char>)
    ensures
        text_named(members, name) is None || members.contains((name, text_named(members, name))),
        forall|text: Option<Seq<char>>| #[trigger]
            members.contains((name, text)) ==> members.contains((name, text_named(members, name))),
    decreases members.len(),
{
    if members.len() > 0 {
        let rest = members.skip(1);
        lemma_text_named(rest, name);
        assert forall|entry: (Seq<char>, Option<Seq<char>>)| #[trigger]
            members.contains(entry) implies members[0] == entry || rest.contains(entry) by {
            let i = choose|i: int| 0 <= i < members.len() && members[i] == entry;
            if i > 0 {
                assert(rest[i - 1] == entry);
            }
        }
        assert forall|entry: (Seq<char>, Option<Seq<char>>)| #[trigger]
            rest.contains(entry) implies members.contains(entry) by {
            let i = choose|i: int| 0 <= i < rest.len() && rest[i] == entry;
            assert(members[i + 1] == entry);
        }
        assert(members.contains(members[0]));
    }
}

proof fn lemma_texts_in(members: Seq<(String, Json)>, name: Seq<char>)
    ensures
        text_named(texts_in(members), name) == string_in(member(members, name)),
    decreases members.len(),
{
    if members.len() > 0 {
        lemma_texts_in(members.skip(1), name);
        assert(texts_in(members).skip(1) =~= texts_in(members.skip(1)));
    }
}

/// A document and the object it holds give the same command: where the members that were parsed
/// are those of an object that lists no name twice, in whatever order, the command in them is the
/// string that the object has as its `command`.
pub proof fn law_document_and_object_agree(
    texts: Seq<(Seq<char>, Option<Seq<char>>)>,
    object: Vec<(String, Json)>,
)
    requires
        names_differ(object@),
        are_texts_of(Some(texts), Json::Object(object)),
    ensures
        parsed_command(Some(texts)) == command_among(Some(Json::Object(object))),
{
    let name = "command"@;
    let listed = texts_in(object@);
    lemma_texts_in(object@, name);
    lemma_text_named(texts, name);
    lemma_text_named(listed, name);
    assert forall|a: Option<Seq<char>>, b: Option<Seq<char>>|
        #[trigger] listed.contains((name, a)) && #[trigger] listed.contains(
            (name, b),
        ) implies a == b by {
        let i = choose|i: int| 0 <= i < listed.len() && listed[i] == (name, a);
        let j = choose|j: int| 0 <= j < listed.len() && listed[j] == (name, b);
        assert(object@[i].0@ == name && object@[j].0@ == name);
    }
    let a = text_named(texts, name);
    let b = text_named(listed, name);
    if a is Some {
        assert(texts.contains((name, a)));
        assert(listed.contains((name, a)));
    }
    if b is Some {
        assert(listed.contains((name, b)));
        assert(texts.contains((name, b)));
        assert(texts.contains((name, a)));
    }
}

/// Arguments that are not a string give `command` where it is a string, and nothing where they are
/// no object; nor do missing arguments, or a string that holds no object.
pub proof fn law_command_is_a_string_member(arguments: Option<Json>)
    ensures
        arguments is None ==> command_among(arguments) is None,
        arguments matches Some(value) ==> (match value {
            Json::Str(document) => parsed_texts(document@) is None ==> command_among(
                arguments,
            ) is None,
            _ => command_among(arguments) == string_in(get(value, "command"@)),
        }),
{
}

/// The command among a call's arguments. A string that is the written form of a value gives what
/// that value gives where it is an object, and nothing where it is not.
pub fn command_from_arguments(arguments: Option<&Json>) -> (command: Option<String>)
    ensures
        text_behind(command) == command_among(
            match arguments {
                Some(arguments) => Some(*arguments),
                None => None,
            },
        ),
        arguments matches Some(Json::Str(document)) ==> forall|value: Json|
            #[trigger] written(value) == document@ && reads_back(value) ==> text_behind(command)
                == string_in(get(value, "command"@)),
{
    match arguments {
        Some(Json::Str(document)) => {
            let members = parse_texts(document.as_str());
            proof {
                assert forall|value: Json|
                    #[trigger] written(value) == document@ && reads_back(
                        value,
                    ) implies parsed_command(texts_behind(members)) == string_in(
                    get(value, "command"@),
                ) by {
                    if let Json::Object(object) = value {
                        law_document_and_object_agree(texts_behind(members)->0, object);
                    }
                }
            }
            command_in_document(members)
        },
        Some(Json::Object(members)) => owned_text(find_member(members, "command")),
        _ => None,
    }
}

/// A copy of the text of a value, if there is one and it is a string.
fn owned_text(value: Option<&Json>) -> (text: Option<String>)
    ensures
        text_behind(text) == string_in(
            match value {
                Some(value) => Some(*value),
                None => None,
            },
        ),
{
    match value {
        Some(value) => match value.as_str() {
            Some(text) => Some(copy_of(text)),
            None => None,
        },
        None => None,
    }
}

/// The member `inner` of the member `outer`.
pub open spec fn nested(members: Seq<(String, Json)>, outer: Seq<char>, inner: Seq<char>) -> Option<
    Json,
> {
    match member(members, outer) {
        Some(value) => get(value, inner),
        None => None,
    }
}

/// The id of a `function_call`: its `call_id`, or its `id` where it has no `call_id`.
pub open spec fn function_call_id(members: Seq<(String, Json)>) -> Option<Seq<char>> {
    match member(members, "call_id"@) {
        Some(id) => string(id),
        None => string_in(member(members, "id"@)),
    }
}

/// An id and a command, where there are both.
pub open spec fn both(id: Option<Seq<char>>, command: Option<Seq<char>>) -> Option<
    (Seq<char>, Seq<char>),
> {
    match (id, command) {
        (Some(id), Some(command)) => Some((id, command)),
        _ => None,
    }
}

/// The first of two pairs that there is.
pub open spec fn either(
    a: Option<(Seq<char>, Seq<char>)>,
    b: Option<(Seq<char>, Seq<char>)>,
) -> Option<(Seq<char>, Seq<char>)> {
    if a is Some {
        a
    } else {
        b
    }
}

/// The invocation that an object records, as its id and its command, where `arguments` is the
/// command among its `arguments` and `function_arguments` that among its `function`'s.
///
/// Three shapes are known, in this order: a `tool_use` with a command among its `input`, a
/// `function_call` with one among its `arguments`, and any object with an `id` and one among its
/// `function`'s `arguments`.
pub open spec fn invocation(
    members: Seq<(String, Json)>,
    arguments: Option<Seq<char>>,
    function_arguments: Option<Seq<char>>,
) -> Option<(Seq<char>, Seq<char>)> {
    let kind = string_in(member(members, "type"@));
    let id = string_in(member(members, "id"@));
    either(
        if kind == Some("tool_use"@) {
            both(id, string_in(nested(members, "input"@, "command"@)))
        } else {
            None
        },
        either(
            if kind == Some("function_call"@) {
                both(function_call_id(members), arguments)
            } else {
                None
            },
            both(id, function_arguments),
        ),
    )
}

/// The texts behind an optional pair of strings.
pub open spec fn pair_behind(pair: Option<(String, String)>) -> Option<(Seq<char>, Seq<char>)> {
    match pair {
        Some(pair) => Some((pair.0@, pair.1@)),
        None => None,
    }
}

fn owned_member(members: &Vec<(String, Json)>, name: &str) -> (text: Option<String>)
    ensures
        text_behind(text) == string_in(member(members@, name@)),
{
    owned_text(find_member(members, name))
}

fn owned_pair(id: Option<String>, command: Option<String>) -> (pair: Option<(String, String)>)
    ensures
        pair_behind(pair) == both(text_behind(id), text_behind(command)),
{
    match (id, command) {
        (Some(id), Some(command)) => Some((id, command)),
        _ => None,
    }
}

/// The invocation that an object records, once the commands among its arguments are known.
pub fn read_invocation(
    members: &Vec<(String, Json)>,
    arguments: Option<String>,
    function_arguments: Option<String>,
) -> (pair: Option<(String, String)>)
    ensures
        pair_behind(pair) == invocation(
            members@,
            text_behind(arguments),
            text_behind(function_arguments),
        ),
{
    let kind = owned_member(members, "type");
    if let Some(kind) = &kind {
        if same_text(kind.as_str(), "tool_use") {
            let command = match find_member(members, "input") {
                Some(input) => owned_text(input.get("command")),
                None => None,
            };
            let pair = owned_pair(owned_member(members, "id"), command);
            if pair.is_some() {
                return pair;
            }
        }
        if same_text(kind.as_str(), "function_call") {
            let id = match find_member(members, "call_id") {
                Some(id) => owned_text(Some(id)),
                None => owned_member(members, "id"),
            };
            let pair = owned_pair(id, arguments);
            if pair.is_some() {
                return pair;
            }
        }
    }
    owned_pair(owned_member(members, "id"), function_arguments)
}

/// The invocation that an object records.
pub open spec fn own_invocation(members: Seq<(String, Json)>) -> Option<(Seq<char>, Seq<char>)> {
    invocation(
        members,
        command_among(member(members, "arguments"@)),
        command_among(nested(members, "function"@, "arguments"@)),
    )
}

/// The invocations that a document records, each object before what it holds, and what an array
/// or an object holds in the order in which it lists it.
pub open spec fn invocations(value: Json) -> Seq<(Seq<char>, Seq<char>)>
    decreases value,
{
    match value {
        Json::Array(items) => invocations_of_items(items@),
        Json::Object(members) => match own_invocation(members@) {
            Some(own) => seq![own] + invocations_of_members(members@),
            None => invocations_of_members(members@),
        },
        _ => Seq::empty(),
    }
}

pub open spec fn invocations_of_items(items: Seq<Json>) -> Seq<(Seq<char>, Seq<char>)>
    decreases items,
{
    if items.len() == 0 {
        Seq::empty()
    } else {
        invocations_of_items(items.drop_last()) + invocations(items.last())
    }
}

pub open spec fn invocations_of_members(members: Seq<(String, Json)>) -> Seq<
    (Seq<char>, Seq<char>),
>
    decreases members,
{
    if members.len() == 0 {
        Seq::empty()
    } else {
        invocations_of_members(members.drop_last()) + invocations(members.last().1)
    }
}

/// A map after a list of pairs has been entered, one after another.
pub open spec fn entered(
    map: Map<Seq<char>, Seq<char>>,
    pairs: Seq<(Seq<char>, Seq<char>)>,
) -> Map<Seq<char>, Seq<char>>
    decreases pairs.len(),
{
    if pairs.len() == 0 {
        map
    } else {
        entered(map, pairs.drop_last()).insert(pairs.last().0, pairs.last().1)
    }
}

proof fn lemma_entered_in_turn(
    map: Map<Seq<char>, Seq<char>>,
    first: Seq<(Seq<char>, Seq<char>)>,
    second: Seq<(Seq<char>, Seq<char>)>,
)
    ensures
        entered(map, first + second) == entered(entered(map, first), second),
    decreases second.len(),
{
    if second.len() == 0 {
        assert(first + second =~= first);
    } else {
        assert((first + second).drop_last() =~= first + second.drop_last());
        lemma_entered_in_turn(map, first, second.drop_last());
    }
}

/// Entering pairs into a map overrides it: the map that the pairs alone make counts where it has an
/// entry, and the rest of the map stays as it was.
pub proof fn law_entering_overrides(
    map: Map<Seq<char>, Seq<char>>,
    pairs: Seq<(Seq<char>, Seq<char>)>,
)
    ensures
        entered(map, pairs) == map.union_prefer_right(entered(Map::empty(), pairs)),
    decreases pairs.len(),
{
    if pairs.len() > 0 {
        law_entering_overrides(map, pairs.drop_last());
    }
    assert(entered(map, pairs) =~= map.union_prefer_right(entered(Map::empty(), pairs)));
}

/// Walking a document after others overrides what they recorded: the commands of the document
/// itself count, no id is lost, an id that the document does not define keeps its command, and a
/// value that is neither an array nor an object leaves everything as it was.
pub proof fn law_walking_overrides(map: Map<Seq<char>, Seq<char>>, value: Json)
    ensures
        entered(map, invocations(value)) == map.union_prefer_right(
            entered(Map::empty(), invocations(value)),
        ),
        map.dom().subset_of(entered(map, invocations(value)).dom()),
        forall|id: Seq<char>|
            map.contains_key(id) && !entered(Map::empty(), invocations(value)).contains_key(id)
                ==> #[trigger] entered(map, invocations(value))[id] == map[id],
        value !is Array && value !is Object ==> entered(map, invocations(value)) == map,
{
    law_entering_overrides(map, invocations(value));
}

/// The command of each recorded invocation, by its id.
pub fn commands_by_id(raw: &Json) -> (commands: TextMap)
    ensures
        commands@ == entered(Map::empty(), invocations(*raw)),
{
    let mut commands = TextMap::new();
    walk_commands(raw, &mut commands);
    commands
}

/// Enters the invocations that a value records: its own commands override those entered before, and
/// the rest stay as they were.
pub fn walk_commands(value: &Json, commands: &mut TextMap)
    ensures
        final(commands)@ == entered(old(commands)@, invocations(*value)),
        final(commands)@ == old(commands)@.union_prefer_right(
            entered(Map::empty(), invocations(*value)),
        ),
    decreases value,
{
    proof {
        law_entering_overrides(old(commands)@, invocations(*value));
    }
    match value {
        Json::Array(items) => {
            let mut i: usize = 0;
            while i < items.len()
                invariant
                    i <= items@.len(),
                    decreases_to!(value => items@),
                    commands@ == entered(
                        old(commands)@,
                        invocations_of_items(items@.take(i as int)),
                    ),
                decreases items@.len() - i,
            {
                walk_commands(&items[i], commands);
                proof {
                    let done = items@.take(i + 1);
                    assert(done.drop_last() =~= items@.take(i as int));
                    lemma_entered_in_turn(
                        old(commands)@,
                        invocations_of_items(items@.take(i as int)),
                        invocations(items@[i as int]),
                    );
                }
                i += 1;
            }
            assert(items@.take(i as int) =~= items@);
        },
        Json::Object(members) => {
            ingest_invocation(members, commands);
            let ghost own = match own_invocation(members@) {
                Some(own) => seq![own],
                None => Seq::empty(),
            };
            let ghost begun = commands@;
            proof {
                reveal_with_fuel(entered, 2);
                assert(begun == entered(old(commands)@, own)) by {
                    if own.len() > 0 {
                        assert(own.drop_last() =~= Seq::<(Seq<char>, Seq<char>)>::empty());
                    }
                }
            }
            let mut i: usize = 0;
            while i < members.len()
                invariant
                    i <= members@.len(),
                    decreases_to!(value => members@),
                    commands@ == entered(begun, invocations_of_members(members@.take(i as int))),
                decreases members@.len() - i,
            {
                walk_commands(&members[i].1, commands);
                proof {
                    let done = members@.take(i + 1);
                    assert(done.drop_last() =~= members@.take(i as int));
                    lemma_entered_in_turn(
                        begun,
                        invocations_of_members(members@.take(i as int)),
                        invocations(members@[i as int].1),
                    );
                }
                i += 1;
            }
            proof {
                assert(members@.take(i as int) =~= members@);
                let below = invocations_of_members(members@);
                lemma_entered_in_turn(old(commands)@, own, below);
                assert(own + below =~= invocations(*value));
            }
        },
        _ => {},
    }
}

/// Enters the invocation that an object records, if it records one.
fn ingest_invocation(members: &Vec<(String, Json)>, commands: &mut TextMap)
    ensures
        final(commands)@ == match own_invocation(members@) {
            Some(own) => old(commands)@.insert(own.0, own.1),
            None => old(commands)@,
        },
{
    let arguments = command_from_arguments(find_member(members, "arguments"));
    let function_arguments = match find_member(members, "function") {
        Some(function) => command_from_arguments(function.get("arguments")),
        None => None,
    };
    if let Some((id, command)) = read_invocation(members, arguments, function_arguments) {
        commands.insert(id, command);
    }
}

/// The id that a tool result carries: the first of three members that is a string.
pub open spec fn id_on(node: Json) -> Option<Seq<char>> {
    match string_in(get(node, "tool_use_id"@)) {
        Some(id) => Some(id),
        None => match string_in(get(node, "tool_call_id"@)) {
            Some(id) => Some(id),
            None => string_in(get(node, "call_id"@)),
        },
    }
}

/// The id on the value that `pointer` addresses, or on the nearest value around it that carries
/// one. The document as a whole is asked only where `pointer` is empty.
pub open spec fn nearest_id(raw: Json, pointer: Seq<char>) -> Option<Seq<char>>
    decreases pointer.len(),
{
    let here = match resolve(raw, pointer) {
        Some(node) => id_on(node),
        None => None,
    };
    if here is Some {
        here
    } else {
        match find_last(pointer, '/') {
            Some(cut) => if 0 < cut < pointer.len() {
                nearest_id(raw, pointer.take(cut as int))
            } else {
                None
            },
            None => None,
        }
    }
}

fn read_id(node: &Json) -> (id: Option<&str>)
    ensures
        view_of(id) == id_on(*node),
{
    if let Some(value) = node.get("tool_use_id") {
        if let Some(id) = value.as_str() {
            return Some(id);
        }
    }
    if let Some(value) = node.get("tool_call_id") {
        if let Some(id) = value.as_str() {
            return Some(id);
        }
    }
    match node.get("call_id") {
        Some(value) => value.as_str(),
        None => None,
    }
}

/// The id on the tool-result block that `pointer` addresses, walking toward the document's root.
pub fn result_call_id<'a>(raw: &'a Json, pointer: &str) -> (id: Option<&'a str>)
    ensures
        view_of(id) == nearest_id(*raw, pointer@),
{
    let chars = chars_of(pointer);
    let mut to: usize = chars.len();
    assert(chars@.take(to as int) =~= chars@);
    loop
        invariant
            to <= chars@.len(),
            chars@ == pointer@,
            nearest_id(*raw, pointer@) == nearest_id(*raw, chars@.take(to as int)),
        decreases to,
    {
        let here = string_of(&chars, 0, to);
        assert(here@ =~= chars@.take(to as int));
        if let Some(node) = raw.pointer(here.as_str()) {
            if let Some(id) = read_id(node) {
                return Some(id);
            }
        }
        match last_position_of(&chars, to, '/') {
            Some(cut) => {
                if cut == 0 {
                    return None;
                }
                assert(chars@.take(to as int).take(cut as int) =~= chars@.take(cut as int));
                to = cut;
            },
            None => return None,
        }
    }
}

/// The command in `commands` that the result at `pointer` names by its id.
pub open spec fn producing_command(
    commands: Map<Seq<char>, Seq<char>>,
    raw: Json,
    pointer: Seq<char>,
) -> Option<Seq<char>> {
    match nearest_id(raw, pointer) {
        Some(id) => if commands.contains_key(id) {
            Some(commands[id])
        } else {
            None
        },
        None => None,
    }
}

/// The command that produced the result at `pointer`, where `commands` are those of the document.
pub fn command_for<'a>(commands: &'a TextMap, raw: &Json, pointer: &str) -> (command: Option<
    &'a str,
>)
    ensures
        view_of(command) == producing_command(commands@, *raw, pointer@),
{
    match result_call_id(raw, pointer) {
        Some(id) => match commands.get(id) {
            Some(command) => Some(command.as_str()),
            None => None,
        },
        None => None,
    }
}

// ----- what the exemptions promise ----------------------------------------------------------

/// The pattern `*` exempts every result, with or without a command.
pub proof fn law_star_exempts_everything(
    text: Seq<char>,
    command: Option<Seq<char>>,
    patterns: Seq<Seq<char>>,
    home: Option<Seq<char>>,
)
    requires
        patterns.contains(EVERYTHING@),
    ensures
        passes_through(text, command, patterns, home),
{
}

/// The pattern `*` matches every command.
pub proof fn law_star_covers_every_command(command: Seq<char>, home: Option<Seq<char>>)
    ensures
        covers(EVERYTHING@, command, home),
{
    reveal_strlit("*");
    is_ascii_chars_encode_utf8(EVERYTHING@);
    assert(encode_utf8(EVERYTHING@) =~= seq![STAR]);
    law_star_matches_everything(encode_utf8(command));
}

/// Configuring one more pattern never withdraws an exemption.
pub proof fn law_more_patterns_exempt_more(
    text: Seq<char>,
    command: Option<Seq<char>>,
    patterns: Seq<Seq<char>>,
    pattern: Seq<char>,
    home: Option<Seq<char>>,
)
    requires
        passes_through(text, command, patterns, home),
    ensures
        passes_through(text, command, patterns.push(pattern), home),
{
    let more = patterns.push(pattern);
    if patterns.contains(EVERYTHING@) {
        let i = choose|i: int| 0 <= i < patterns.len() && patterns[i] == EVERYTHING@;
        assert(more[i] == EVERYTHING@);
    } else if !output_asks(text) {
        let command = command->0;
        if !command_asks(command) {
            let i = choose|i: int|
                0 <= i < patterns.len() && covers(#[trigger] patterns[i], command, home);
            assert(covers(more[i], command, home));
        }
    }
}

/// Nothing is exempt without a signal: where no pattern is configured and neither the output nor
/// the command holds the sentinel, a result is windowed like any other.
pub proof fn law_no_signal_no_exemption(
    text: Seq<char>,
    command: Option<Seq<char>>,
    home: Option<Seq<char>>,
)
    requires
        !output_asks(text),
        command is Some ==> !command_asks(command->0),
    ensures
        !passes_through(text, command, Seq::empty(), home),
{
}

/// A line of the output that is the sentinel exempts it, whatever stands before and after it.
pub proof fn law_sentinel_line_exempts(before: Seq<char>, line: Seq<char>, after: Seq<char>)
    requires
        is_sentinel(line),
        !line.contains('\n'),
    ensures
        output_asks(line),
        output_asks(before + seq!['\n'] + line + seq!['\n'] + after),
{
    assert forall|i: int| 0 <= i < line.len() implies line[i] != '\n' by {
        assert(line.contains(line[i]));
    }
    assert(line.subrange(0, line.len() as int) =~= line);
    assert(is_line(line, 0, line.len() as int));
    let text = before + seq!['\n'] + line + seq!['\n'] + after;
    let from = before.len() as int + 1;
    let to = from + line.len();
    assert(text.subrange(from, to) =~= line);
    assert(is_line(text, from, to));
}

/// The search in a command ignores the case of ASCII letters: it finds in bytes with their capitals
/// made small what it finds in the bytes as they are.
pub proof fn law_search_ignores_case(command: Seq<u8>, needle: Seq<u8>)
    ensures
        bytes_occur_ignoring_case(lower_bytes(command), needle) == bytes_occur_ignoring_case(
            command,
            needle,
        ),
{
    let small = lower_bytes(command);
    assert forall|i: int| 0 <= i <= command.len() - needle.len() implies lower_bytes(
        #[trigger] small.subrange(i, i + needle.len()),
    ) == lower_bytes(command.subrange(i, i + needle.len())) by {
        assert(lower_bytes(small.subrange(i, i + needle.len())) =~= lower_bytes(
            command.subrange(i, i + needle.len()),
        ));
    }
    if bytes_occur_ignoring_case(command, needle) {
        let i = choose|i: int|
            0 <= i <= command.len() - needle.len() && lower_bytes(
                #[trigger] command.subrange(i, i + needle.len()),
            ) == lower_bytes(needle);
        assert(lower_bytes(small.subrange(i, i + needle.len())) == lower_bytes(needle));
    }
}

/// Without a home directory, or with an empty one, `~/` stands for itself.
pub proof fn law_no_home_no_expansion(text: Seq<char>)
    ensures
        expand(text, None) == text,
        expand(text, Some(Seq::empty())) == text,
{
}

/// A text without `~/` is not changed by expansion.
pub proof fn law_nothing_to_expand(text: Seq<char>, home: Option<Seq<char>>)
    requires
        !occurs(text, "~/"@),
    ensures
        expand(text, home) == text,
{
    match home {
        Some(home) => {
            lemma_replace_absent(text, "~/"@, home + "/"@);
        },
        None => {},
    }
}

/// A line is kept whatever white space it is indented with.
pub proof fn law_indent_does_not_matter(c: char, line: Seq<char>)
    requires
        is_white_space(c),
    ensures
        keeps(seq![c] + line) == keeps(line),
{
    assert((seq![c] + line).skip(1) =~= line);
}

/// Whether the invocation at `at` is the last one with its id.
pub open spec fn last_of_its_id(pairs: Seq<(Seq<char>, Seq<char>)>, at: int) -> bool {
    &&& 0 <= at < pairs.len()
    &&& forall|k: int| at < k < pairs.len() ==> (#[trigger] pairs[k]).0 != pairs[at].0
}

/// Of several invocations with one id the last counts, and an id that none has is absent.
pub proof fn law_last_invocation_counts(pairs: Seq<(Seq<char>, Seq<char>)>)
    ensures
        forall|at: int| #[trigger]
            last_of_its_id(pairs, at) ==> entered(Map::empty(), pairs).contains_key(pairs[at].0)
                && entered(Map::empty(), pairs)[pairs[at].0] == pairs[at].1,
        forall|id: Seq<char>| #[trigger]
            entered(Map::empty(), pairs).contains_key(id) ==> exists|at: int|
                0 <= at < pairs.len() && (#[trigger] pairs[at]).0 == id,
    decreases pairs.len(),
{
    if pairs.len() > 0 {
        let earlier = pairs.drop_last();
        law_last_invocation_counts(earlier);
        assert forall|at: int| #[trigger] last_of_its_id(pairs, at) implies entered(
            Map::empty(),
            pairs,
        ).contains_key(pairs[at].0) && entered(Map::empty(), pairs)[pairs[at].0]
            == pairs[at].1 by {
            if at < pairs.len() - 1 {
                assert forall|k: int| at < k < earlier.len() implies (#[trigger] earlier[k]).0
                    != earlier[at].0 by {
                    assert(earlier[k] == pairs[k]);
                }
                assert(last_of_its_id(earlier, at));
                assert(pairs[pairs.len() - 1].0 != pairs[at].0);
            }
        }
        assert forall|id: Seq<char>| #[trigger] entered(Map::empty(), pairs).contains_key(
            id,
        ) implies exists|at: int| 0 <= at < pairs.len() && (#[trigger] pairs[at]).0 == id by {
            if entered(Map::empty(), earlier).contains_key(id) {
                let at = choose|at: int|
                    0 <= at < earlier.len() && (#[trigger] earlier[at]).0 == id;
                assert(pairs[at].0 == id);
            } else {
                assert(pairs[pairs.len() - 1].0 == id);
            }
        }
    }
}

/// A result is traced to the invocation that it names: where the document records an invocation,
/// the last with its id, the command for a result that carries this id is the recorded one; and
/// where it records none with the result's id, there is no command.
pub proof fn law_result_is_traced_to_its_command(raw: Json, pointer: Seq<char>)
    ensures
        forall|at: int| #[trigger]
            last_of_its_id(invocations(raw), at) && nearest_id(raw, pointer) == Some(
                invocations(raw)[at].0,
            ) ==> producing_command(entered(Map::empty(), invocations(raw)), raw, pointer) == Some(
                invocations(raw)[at].1,
            ),
        (forall|at: int|
            0 <= at < invocations(raw).len() ==> Some((#[trigger] invocations(raw)[at]).0)
                != nearest_id(raw, pointer)) ==> producing_command(
            entered(Map::empty(), invocations(raw)),
            raw,
            pointer,
        ) is None,
{
    law_last_invocation_counts(invocations(raw));
}

/// An id on the value that a pointer addresses is the one that counts.
pub proof fn law_own_id_counts(raw: Json, pointer: Seq<char>)
    requires
        resolve(raw, pointer) is Some,
        id_on(resolve(raw, pointer)->0) is Some,
    ensures
        nearest_id(raw, pointer) == id_on(resolve(raw, pointer)->0),
{
}

/// A value without an id of its own has that of what it stands in.
pub proof fn law_id_is_inherited(raw: Json, pointer: Seq<char>, token: Seq<char>)
    requires
        pointer.len() > 0,
        !token.contains('/'),
        match resolve(raw, pointer + seq!['/'] + token) {
            Some(node) => id_on(node) is None,
            None => true,
        },
    ensures
        nearest_id(raw, pointer + seq!['/'] + token) == nearest_id(raw, pointer),
{
    let long = pointer + seq!['/'] + token;
    lemma_find_last_push(pointer, token);
    assert(long.take(pointer.len() as int) =~= pointer);
}

proof fn lemma_find_last_push(text: Seq<char>, piece: Seq<char>)
    requires
        !piece.contains('/'),
    ensures
        find_last(text + seq!['/'] + piece, '/') == Some(text.len()),
    decreases piece.len(),
{
    let long = text + seq!['/'] + piece;
    if piece.len() > 0 {
        assert(piece.contains(piece.last()));
        assert(long.last() == piece.last());
        assert(long.drop_last() =~= text + seq!['/'] + piece.drop_last());
        assert forall|c: char| piece.drop_last().contains(c) implies piece.contains(c) by {
            let i = choose|i: int| 0 <= i < piece.drop_last().len() && piece.drop_last()[i] == c;
            assert(piece[i] == c);
        }
        lemma_find_last_push(text, piece.drop_last());
    }
}

} // verus!
