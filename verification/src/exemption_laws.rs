//! What the exemptions promise, said of the texts and documents themselves: of what a command, a
//! line of output or a recorded call is made of, whatever stands around it and however long it is.
use vstd::prelude::*;
use vstd::utf8::{encode_utf8, is_ascii_chars, is_ascii_chars_encode_utf8};

use crate::glob::{glob_matches, law_literal_pattern, law_prefix_pattern};
use crate::json::{has, lacks, law_lookup, member, resolve, string_in, Json};
use crate::passthrough::{
    both, command_among, command_asks, covers, entered, expand, function_call_id, glob, id_on,
    invocation, invocations, invocations_of_items, invocations_of_members, is_line, is_sentinel,
    keeps, last_of_its_id, law_last_invocation_counts, nearest_id, nested, output_asks,
    own_invocation, pair_behind, parsed_command, parsed_texts, passes_through, producing_command,
    text_behind, texts_behind, view_of, KEEP_PREFIX, PASSTHROUGH_SENTINEL,
};
use crate::text::{
    is_blank, is_trimmed, is_white_space, law_find_last, law_lower_compares_letters,
    law_occurrence_is_a_middle_part, law_replace_first, law_starts_with, law_trim,
    lemma_ascii_bytes_are_characters, lemma_encoding_concatenates, lemma_encoding_injective,
    lemma_replace_absent, lemma_trim_end, lemma_trim_start, occurs, same_letter, same_letter_byte,
    same_letter_bytes, same_letters, starts_with, trim, trim_start,
};

verus! {

// ----- the signals --------------------------------------------------------------------------

/// Each signal suffices on its own, whatever the other arguments are: a line of the output, the
/// pattern `*`, the sentinel in the command, or a pattern that covers the command. And without
/// any of them nothing is exempt.
pub proof fn law_each_signal_suffices(
    text: Seq<char>,
    command: Option<Seq<char>>,
    patterns: Seq<Seq<char>>,
    home: Option<Seq<char>>,
)
    ensures
        output_asks(text) ==> passes_through(text, command, patterns, home),
        patterns.contains("*"@) ==> passes_through(text, command, patterns, home),
        command is Some && command_asks(command->0) ==> passes_through(
            text,
            command,
            patterns,
            home,
        ),
        command is Some && (exists|i: int|
            0 <= i < patterns.len() && covers(#[trigger] patterns[i], command->0, home))
            ==> passes_through(text, command, patterns, home),
        passes_through(text, command, patterns, home) ==> {
            ||| output_asks(text)
            ||| patterns.contains("*"@)
            ||| command is Some && command_asks(command->0)
            ||| command is Some && exists|i: int|
                0 <= i < patterns.len() && covers(#[trigger] patterns[i], command->0, home)
        },
{
}

/// Whether a text, but for the case of its letters, is the assignment that asks for passthrough.
pub open spec fn is_assignment(text: Seq<char>) -> bool {
    same_letters(text, "LLMTRIM_TOOL_OUTPUT=passthrough"@)
}

proof fn lemma_number_of(c: char)
    ensures
        c as u32 == c as int,
{
}

proof fn lemma_assignment_is_ascii(text: Seq<char>)
    requires
        is_assignment(text),
    ensures
        is_trimmed(text),
        is_ascii_chars(text),
        is_ascii_chars("LLMTRIM_TOOL_OUTPUT=passthrough"@),
        !text.contains('\n'),
        text.len() == 31,
{
    reveal_strlit("LLMTRIM_TOOL_OUTPUT=passthrough");
    let wanted = "LLMTRIM_TOOL_OUTPUT=passthrough"@;
    assert(wanted.len() == 31);
    assert(is_ascii_chars(wanted));
    assert(same_letter(text[0], wanted[0]));
    assert(same_letter(text[30], wanted[30]));
    assert forall|i: int| 0 <= i < text.len() implies '!' <= #[trigger] text[i] <= '\u{7e}' by {
        assert(same_letter(text[i], wanted[i]));
        assert('!' <= wanted[i] <= '\u{7e}');
        let c = text[i];
        let w = wanted[i];
        lemma_number_of(c);
        lemma_number_of(w);
    }
}

/// A line asks for passthrough exactly where it is the assignment, in whatever case, with nothing
/// but white space around it.
pub proof fn law_sentinel_line(line: Seq<char>)
    ensures
        is_sentinel(line) <==> exists|left: Seq<char>, core: Seq<char>, right: Seq<char>|
            line == #[trigger] (left + core + right) && is_blank(left) && is_blank(right)
                && is_assignment(core),
{
    if is_sentinel(line) {
        let core = trim(line);
        let kept = trim_start(line);
        lemma_trim_start(line);
        lemma_trim_end(kept);
        let left = line.take(line.len() - kept.len());
        let right = kept.skip(core.len() as int);
        assert(line =~= left + core + right);
        assert forall|i: int| 0 <= i < right.len() implies is_white_space(#[trigger] right[i]) by {
            assert(right[i] == kept[core.len() + i]);
        }
        law_lower_compares_letters(core, PASSTHROUGH_SENTINEL@);
    }
    assert forall|left: Seq<char>, core: Seq<char>, right: Seq<char>|
        line == #[trigger] (left + core + right) && is_blank(left) && is_blank(right)
            && is_assignment(core) implies is_sentinel(line) by {
        lemma_assignment_is_ascii(core);
        law_trim(left, core, right);
        law_lower_compares_letters(core, PASSTHROUGH_SENTINEL@);
    }
}

/// Whether `line` is a line of `text`: what stands between two newlines, or between one and an end.
pub open spec fn has_line(text: Seq<char>, line: Seq<char>) -> bool {
    &&& !line.contains('\n')
    &&& exists|head: Seq<char>, tail: Seq<char>| #[trigger]
        (head + line + tail) == text && (head.len() == 0 || head.last() == '\n') && (tail.len() == 0
            || tail[0] == '\n')
}

/// Output asks for passthrough exactly where one of its lines, any of them, does.
pub proof fn law_any_line_may_ask(text: Seq<char>)
    ensures
        output_asks(text) <==> exists|line: Seq<char>| #[trigger]
            has_line(text, line) && is_sentinel(line),
{
    if output_asks(text) {
        let (from, to) = choose|from: int, to: int| #[trigger]
            is_line(text, from, to) && is_sentinel(text.subrange(from, to));
        let line = text.subrange(from, to);
        let head = text.take(from);
        let tail = text.skip(to);
        assert(head + line + tail =~= text);
        assert(has_line(text, line));
    }
    assert forall|line: Seq<char>| #[trigger]
        has_line(text, line) && is_sentinel(line) implies output_asks(text) by {
        let (head, tail) = choose|head: Seq<char>, tail: Seq<char>| #[trigger]
            (head + line + tail) == text && (head.len() == 0 || head.last() == '\n') && (tail.len()
                == 0 || tail[0] == '\n');
        let from = head.len() as int;
        let to = from + line.len();
        assert(text.subrange(from, to) =~= line);
        assert forall|i: int| from <= i < to implies text[i] != '\n' by {
            assert(line.contains(line[i - from]));
        }
        assert(from == 0 || text[from - 1] == head.last());
        assert(to == text.len() || text[to] == tail[0]);
        assert(is_line(text, from, to));
    }
}

/// A result with the assignment on a line of its own ships as it is, whatever surrounds that line
/// and whatever command produced it, known or not.
pub proof fn law_sentinel_in_the_output(
    head: Seq<char>,
    left: Seq<char>,
    core: Seq<char>,
    right: Seq<char>,
    tail: Seq<char>,
    command: Option<Seq<char>>,
    patterns: Seq<Seq<char>>,
    home: Option<Seq<char>>,
)
    requires
        head.len() == 0 || head.last() == '\n',
        tail.len() == 0 || tail[0] == '\n',
        is_blank(left) && !left.contains('\n'),
        is_blank(right) && !right.contains('\n'),
        is_assignment(core),
    ensures
        passes_through(head + left + core + right + tail, command, patterns, home),
{
    let line = left + core + right;
    let text = head + left + core + right + tail;
    lemma_assignment_is_ascii(core);
    law_sentinel_line(line);
    assert(is_sentinel(line));
    assert(head + line + tail =~= text);
    assert forall|i: int| 0 <= i < line.len() implies line[i] != '\n' by {
        if i < left.len() {
            assert(left.contains(left[i]));
        } else if i < left.len() + core.len() {
            assert(core.contains(core[i - left.len()]));
        } else {
            assert(right.contains(right[i - left.len() - core.len()]));
        }
    }
    assert(has_line(text, line));
    law_any_line_may_ask(text);
}

/// A result whose command holds the assignment, in whatever case and wherever in it, ships as it is,
/// whatever the output and the patterns.
pub proof fn law_sentinel_in_the_command(
    head: Seq<char>,
    core: Seq<char>,
    tail: Seq<char>,
    text: Seq<char>,
    patterns: Seq<Seq<char>>,
    home: Option<Seq<char>>,
)
    requires
        is_assignment(core),
    ensures
        command_asks(head + core + tail),
        passes_through(text, Some(head + core + tail), patterns, home),
{
    let command = head + core + tail;
    let wanted = PASSTHROUGH_SENTINEL@;
    lemma_assignment_is_ascii(core);
    lemma_encoding_concatenates(head + core, tail);
    lemma_encoding_concatenates(head, core);
    is_ascii_chars_encode_utf8(core);
    is_ascii_chars_encode_utf8(wanted);
    assert forall|i: int| 0 <= i < core.len() implies same_letter_byte(
        #[trigger] encode_utf8(core)[i],
        encode_utf8(wanted)[i],
    ) by {
        assert(same_letter(core[i], wanted[i]));
        assert(core[i] as u8 == encode_utf8(core)[i]);
        assert(wanted[i] as u8 == encode_utf8(wanted)[i]);
    }
    assert(encode_utf8(command) == encode_utf8(head) + encode_utf8(core) + encode_utf8(tail));
    law_occurrence_is_a_middle_part(encode_utf8(command), encode_utf8(wanted));
}

/// A command asks only where its bytes hold the assignment, but for the case of letters.
pub proof fn law_no_sentinel_in_the_command(command: Seq<char>)
    requires
        command_asks(command),
    ensures
        exists|head: Seq<u8>, part: Seq<u8>, tail: Seq<u8>|
            encode_utf8(command) == #[trigger] (head + part + tail) && same_letter_bytes(
                part,
                encode_utf8("LLMTRIM_TOOL_OUTPUT=passthrough"@),
            ),
{
    law_occurrence_is_a_middle_part(encode_utf8(command), encode_utf8(PASSTHROUGH_SENTINEL@));
}

/// A line is kept exactly where it is the prefix with nothing but white space before it, and
/// anything at all behind it.
pub proof fn law_kept_line(line: Seq<char>)
    ensures
        keeps(line) <==> exists|left: Seq<char>, rest: Seq<char>|
            line == #[trigger] (left + "LLMTRIM_KEEP:"@ + rest) && is_blank(left),
{
    reveal_strlit("LLMTRIM_KEEP:");
    let prefix = "LLMTRIM_KEEP:"@;
    let kept = trim_start(line);
    lemma_trim_start(line);
    law_starts_with(kept, KEEP_PREFIX@);
    if keeps(line) {
        let rest = choose|rest: Seq<char>| kept == #[trigger] (KEEP_PREFIX@ + rest);
        let left = line.take(line.len() - kept.len());
        assert(KEEP_PREFIX@ == prefix);
        assert(line =~= left + kept);
        assert(line =~= left + prefix + rest);
    }
    assert forall|left: Seq<char>, rest: Seq<char>|
        line == #[trigger] (left + prefix + rest) && is_blank(left) implies keeps(line) by {
        let gone = line.len() - kept.len();
        assert(line[left.len() as int] == 'L');
        if gone < left.len() {
            assert(kept[0] == line[gone]);
            assert(line[gone] == left[gone]);
        }
        assert(gone == left.len());
        assert(kept =~= prefix + rest);
    }
}

// ----- patterns -----------------------------------------------------------------------------

/// Whether a text holds neither `*` nor `?`.
pub open spec fn is_literal(text: Seq<char>) -> bool {
    forall|i: int| 0 <= i < text.len() ==> #[trigger] text[i] != '*' && text[i] != '?'
}

proof fn lemma_literal_bytes(text: Seq<char>)
    requires
        is_literal(text),
    ensures
        forall|i: int|
            0 <= i < encode_utf8(text).len() ==> #[trigger] encode_utf8(text)[i] != 0x2a
                && encode_utf8(text)[i] != 0x3f,
{
    assert forall|i: int| 0 <= i < encode_utf8(text).len() implies #[trigger] encode_utf8(text)[i]
        != 0x2a && encode_utf8(text)[i] != 0x3f by {
        if encode_utf8(text)[i] == 0x2a || encode_utf8(text)[i] == 0x3f {
            lemma_ascii_bytes_are_characters(text, i);
            let k = choose|k: int|
                0 <= k < text.len() && (#[trigger] text[k]) as u32 == encode_utf8(text)[i] as u32;
            lemma_number_of(text[k]);
            assert(text[k] == '*' || text[k] == '?');
        }
    }
}

/// Patterns work on the bytes of texts, whatever the texts.
pub proof fn law_globs_are_on_bytes(pat: Seq<char>, text: Seq<char>)
    ensures
        glob(pat, text) <==> glob_matches(encode_utf8(pat), encode_utf8(text)),
{
}

/// A pattern without wildcards matches the command that it spells out, and no other.
pub proof fn law_literal_command(pat: Seq<char>, command: Seq<char>)
    requires
        is_literal(pat),
    ensures
        glob(pat, command) <==> command == pat,
{
    lemma_literal_bytes(pat);
    law_literal_pattern(encode_utf8(pat), encode_utf8(command));
    if encode_utf8(pat) == encode_utf8(command) {
        lemma_encoding_injective(pat, command);
    }
}

/// A pattern that ends in `*` matches what stands before it with anything at all behind it.
pub proof fn law_command_with_any_arguments(prefix: Seq<char>, rest: Seq<char>)
    requires
        is_literal(prefix),
    ensures
        glob(prefix + "*"@, prefix + rest),
{
    reveal_strlit("*");
    lemma_literal_bytes(prefix);
    lemma_encoding_concatenates(prefix, "*"@);
    lemma_encoding_concatenates(prefix, rest);
    is_ascii_chars_encode_utf8("*"@);
    assert(encode_utf8("*"@) =~= seq![0x2au8]);
    law_prefix_pattern(encode_utf8(prefix), encode_utf8(prefix + rest));
    assert(encode_utf8(prefix + rest) == encode_utf8(prefix) + encode_utf8(rest));
}

/// Whether `~/` stands nowhere in a text.
pub open spec fn has_no_tilde_path(text: Seq<char>) -> bool {
    forall|i: int| 0 <= i < text.len() - 1 ==> !(#[trigger] text[i] == '~' && text[i + 1] == '/')
}

proof fn lemma_no_tilde_path(text: Seq<char>)
    requires
        has_no_tilde_path(text),
    ensures
        !occurs(text, "~/"@),
{
    reveal_strlit("~/");
    if occurs(text, "~/"@) {
        let i = choose|i: int| 0 <= i <= text.len() && #[trigger] starts_with(text.skip(i), "~/"@);
        let part = text.skip(i).take(2);
        assert(part[0] == text[i] && part[1] == text[i + 1]);
    }
}

/// Each `~/` stands for the home directory and a slash, whatever is around it and however often it
/// occurs; a text without any stays as it is, and so does every text where there is no home.
pub proof fn law_tilde_is_home(head: Seq<char>, tail: Seq<char>, home: Seq<char>)
    requires
        has_no_tilde_path(head),
    ensures
        expand(head, Some(home)) == head,
        home.len() > 0 ==> expand(head + "~/"@ + tail, Some(home)) == head + home + "/"@ + expand(
            tail,
            Some(home),
        ),
        expand(head + "~/"@ + tail, Some(Seq::empty())) == head + "~/"@ + tail,
        expand(head + "~/"@ + tail, None) == head + "~/"@ + tail,
{
    reveal_strlit("~/");
    lemma_no_tilde_path(head);
    lemma_replace_absent(head, "~/"@, home + "/"@);
    let text = head + "~/"@ + tail;
    assert forall|i: int| 0 <= i < head.len() implies #[trigger] (head + "~/"@ + tail).subrange(
        i,
        i + "~/"@.len(),
    ) != "~/"@ by {
        let part = text.subrange(i, i + 2);
        if part == "~/"@ {
            assert(part[0] == '~' && part[1] == '/');
            assert(text[i] == '~' && text[i + 1] == '/');
            if i + 1 < head.len() {
                assert(head[i] == '~' && head[i + 1] == '/');
            } else {
                assert(text[i + 1] == '~');
            }
        }
    }
    law_replace_first(head, "~/"@, tail, home + "/"@);
    if home.len() > 0 {
        assert(expand(text, Some(home)) =~= head + home + "/"@ + expand(tail, Some(home)));
    }
}

/// A pattern covers a command exactly where it matches it with the tilde of either as it is written
/// or as the home directory: each of the four ways suffices.
pub proof fn law_four_ways_to_cover(pat: Seq<char>, command: Seq<char>, home: Option<Seq<char>>)
    ensures
        glob(pat, command) ==> covers(pat, command, home),
        glob(expand(pat, home), command) ==> covers(pat, command, home),
        glob(pat, expand(command, home)) ==> covers(pat, command, home),
        glob(expand(pat, home), expand(command, home)) ==> covers(pat, command, home),
        covers(pat, command, home) ==> {
            ||| glob(pat, command)
            ||| glob(expand(pat, home), command)
            ||| glob(pat, expand(command, home))
            ||| glob(expand(pat, home), expand(command, home))
        },
        covers(pat, command, None) <==> glob(pat, command),
{
}

/// A pattern written with a tilde covers the command with the home directory spelled out, and the
/// other way round.
pub proof fn law_tilde_covers_home(head: Seq<char>, tail: Seq<char>, home: Seq<char>)
    requires
        home.len() > 0,
        is_literal(head) && is_literal(tail) && is_literal(home),
        has_no_tilde_path(head) && has_no_tilde_path(tail),
    ensures
        covers(head + "~/"@ + tail, head + home + "/"@ + tail, Some(home)),
        covers(head + home + "/"@ + tail, head + "~/"@ + tail, Some(home)),
{
    reveal_strlit("~/");
    reveal_strlit("/");
    law_tilde_is_home(head, tail, home);
    law_tilde_is_home(tail, tail, home);
    let short = head + "~/"@ + tail;
    let long = head + home + "/"@ + tail;
    assert(expand(short, Some(home)) == long);
    assert(is_literal(long)) by {
        assert forall|i: int| 0 <= i < long.len() implies #[trigger] long[i] != '*' && long[i]
            != '?' by {
            if i < head.len() {
                assert(long[i] == head[i]);
            } else if i < head.len() + home.len() {
                assert(long[i] == home[i - head.len()]);
            } else if i > head.len() + home.len() {
                assert(long[i] == tail[i - head.len() - home.len() - 1]);
            }
        }
    }
    law_literal_command(long, long);
}

/// A text that is there is seen as it is.
pub proof fn law_views(text: &str)
    ensures
        view_of(Some(text)) == Some(text@),
        view_of(None) is None,
{
}


// ----- the commands in a document -----------------------------------------------------------

/// Whether an object has the string `text` as its member `name`, whatever other members it lists.
pub open spec fn has_text(members: Seq<(String, Json)>, name: Seq<char>, text: Seq<char>) -> bool {
    exists|value: String| #[trigger] has(members, name, Json::Str(value)) && value@ == text
}

proof fn lemma_has_text(members: Seq<(String, Json)>, name: Seq<char>)
    ensures
        forall|text: Seq<char>| #[trigger]
            has_text(members, name, text) <==> string_in(member(members, name)) == Some(text),
{
    law_lookup(members, name);
    assert forall|text: Seq<char>| #[trigger]
        has_text(members, name, text) <==> string_in(member(members, name)) == Some(text) by {
        if string_in(member(members, name)) == Some(text) {
            if let Some(Json::Str(value)) = member(members, name) {
                assert(has(members, name, Json::Str(value)));
            }
        }
    }
}

/// Arguments that are an object give the string that is its `command`, the whole of it and whatever
/// else the object lists, and nothing where it has no such string. Of the other values only a
/// string can give a command.
pub proof fn law_command_of_an_object(arguments: Json, text: Seq<char>)
    ensures
        arguments matches Json::Object(members) ==> (command_among(Some(arguments)) == Some(text)
            <==> has_text(members@, "command"@, text)),
        arguments !is Object && arguments !is Str ==> command_among(Some(arguments)) is None,
        command_among(None) is None,
{
    if let Json::Object(members) = arguments {
        lemma_has_text(members@, "command"@);
    }
}

/// Arguments that are a string give the text of the first `command` among the members that were
/// read from it, whatever the others are, and nothing where it has none or was not read.
pub proof fn law_command_of_a_document(
    document: String,
    head: Seq<(Seq<char>, Option<Seq<char>>)>,
    text: Option<Seq<char>>,
    tail: Seq<(Seq<char>, Option<Seq<char>>)>,
)
    requires
        forall|i: int| 0 <= i < head.len() ==> (#[trigger] head[i]).0 != "command"@,
    ensures
        parsed_command(Some(head + seq![("command"@, text)] + tail)) == text,
        parsed_command(Some(head)) is None,
        parsed_command(None) is None,
        command_among(Some(Json::Str(document))) == parsed_command(parsed_texts(document@)),
    decreases head.len(),
{
    let all = head + seq![("command"@, text)] + tail;
    if head.len() > 0 {
        let rest = head.skip(1);
        assert forall|i: int| 0 <= i < rest.len() implies (#[trigger] rest[i]).0 != "command"@ by {
            assert(rest[i] == head[i + 1]);
        }
        law_command_of_a_document(document, rest, text, tail);
        assert(all.skip(1) =~= rest + seq![("command"@, text)] + tail);
        assert(all[0] == head[0]);
    }
}

/// Whether an object is a `tool_use` with this id and this command among its input.
pub open spec fn is_tool_use(
    members: Seq<(String, Json)>,
    id: Seq<char>,
    command: Seq<char>,
) -> bool {
    &&& has_text(members, "type"@, "tool_use"@)
    &&& has_text(members, "id"@, id)
    &&& exists|input: Vec<(String, Json)>| #[trigger]
        has(members, "input"@, Json::Object(input)) && has_text(input@, "command"@, command)
}

/// Whether an object is a `function_call` with this id: its `call_id`, or its `id` where it lists no
/// `call_id`.
pub open spec fn is_function_call(members: Seq<(String, Json)>, id: Seq<char>) -> bool {
    &&& has_text(members, "type"@, "function_call"@)
    &&& has_text(members, "call_id"@, id) || (lacks(members, "call_id"@) && has_text(
        members,
        "id"@,
        id,
    ))
}

proof fn lemma_tool_use(members: Seq<(String, Json)>)
    ensures
        forall|id: Seq<char>, command: Seq<char>| #[trigger]
            is_tool_use(members, id, command) <==> string_in(member(members, "type"@)) == Some(
                "tool_use"@,
            ) && both(
                string_in(member(members, "id"@)),
                string_in(nested(members, "input"@, "command"@)),
            ) == Some((id, command)),
{
    lemma_has_text(members, "type"@);
    lemma_has_text(members, "id"@);
    law_lookup(members, "input"@);
    assert forall|id: Seq<char>, command: Seq<char>| #[trigger]
        is_tool_use(members, id, command) <==> string_in(member(members, "type"@)) == Some(
            "tool_use"@,
        ) && both(
            string_in(member(members, "id"@)),
            string_in(nested(members, "input"@, "command"@)),
        ) == Some((id, command)) by {
        assert(has_text(members, "type"@, "tool_use"@) <==> string_in(member(members, "type"@))
            == Some("tool_use"@));
        assert(has_text(members, "id"@, id) <==> string_in(member(members, "id"@)) == Some(id));
        if let Some(Json::Object(input)) = member(members, "input"@) {
            lemma_has_text(input@, "command"@);
            assert(has(members, "input"@, Json::Object(input)));
            assert(has_text(input@, "command"@, command) <==> string_in(
                member(input@, "command"@),
            ) == Some(command));
        }
        if is_tool_use(members, id, command) {
            let input = choose|input: Vec<(String, Json)>| #[trigger]
                has(members, "input"@, Json::Object(input)) && has_text(
                    input@,
                    "command"@,
                    command,
                );
            assert(member(members, "input"@) == Some(Json::Object(input)));
        }
    }
}

proof fn lemma_function_call(members: Seq<(String, Json)>)
    ensures
        forall|id: Seq<char>| #[trigger]
            is_function_call(members, id) <==> string_in(member(members, "type"@)) == Some(
                "function_call"@,
            ) && function_call_id(members) == Some(id),
{
    lemma_has_text(members, "type"@);
    lemma_has_text(members, "id"@);
    lemma_has_text(members, "call_id"@);
    law_lookup(members, "call_id"@);
    assert forall|id: Seq<char>| #[trigger]
        is_function_call(members, id) <==> string_in(member(members, "type"@)) == Some(
            "function_call"@,
        ) && function_call_id(members) == Some(id) by {
        assert(has_text(members, "type"@, "function_call"@) <==> string_in(
            member(members, "type"@),
        ) == Some("function_call"@));
        assert(has_text(members, "id"@, id) <==> string_in(member(members, "id"@)) == Some(id));
        assert(has_text(members, "call_id"@, id) <==> string_in(member(members, "call_id"@))
            == Some(id));
    }
}

/// A `tool_use` with an id and a command among its input is recorded under that id with that
/// command, whatever other members it or its input lists.
pub proof fn law_tool_use_is_recorded(
    members: Seq<(String, Json)>,
    id: Seq<char>,
    command: Seq<char>,
    arguments: Option<Seq<char>>,
    function_arguments: Option<Seq<char>>,
)
    requires
        is_tool_use(members, id, command),
    ensures
        invocation(members, arguments, function_arguments) == Some((id, command)),
        own_invocation(members) == Some((id, command)),
{
    lemma_tool_use(members);
}

/// A `function_call` with an id and a command among its arguments is recorded under that id with
/// that command, whatever other members it lists.
pub proof fn law_function_call_is_recorded(
    members: Seq<(String, Json)>,
    id: Seq<char>,
    command: Seq<char>,
    function_arguments: Option<Seq<char>>,
)
    requires
        is_function_call(members, id),
    ensures
        invocation(members, Some(command), function_arguments) == Some((id, command)),
        forall|arguments: Json| #[trigger]
            has(members, "arguments"@, arguments) && command_among(Some(arguments)) == Some(command)
                ==> own_invocation(members) == Some((id, command)),
{
    lemma_function_call(members);
    law_lookup(members, "arguments"@);
    reveal_strlit("tool_use");
    reveal_strlit("function_call");
    assert("tool_use"@.len() != "function_call"@.len());
}

/// Any other object with an id and a command among the arguments of its `function` is recorded
/// under that id with that command, whatever other members it lists.
pub proof fn law_called_function_is_recorded(
    members: Seq<(String, Json)>,
    id: Seq<char>,
    command: Seq<char>,
    arguments: Option<Seq<char>>,
)
    requires
        has_text(members, "id"@, id),
        forall|id: Seq<char>, command: Seq<char>| !(#[trigger] is_tool_use(members, id, command)),
        arguments is None || forall|id: Seq<char>| !(#[trigger] is_function_call(members, id)),
    ensures
        invocation(members, arguments, Some(command)) == Some((id, command)),
        arguments == command_among(member(members, "arguments"@)) ==> forall|
            function: Vec<(String, Json)>,
            given: Json,
        |
            #![trigger has(members, "function"@, Json::Object(function)), has(
                function@,
                "arguments"@,
                given,
            )]
            has(members, "function"@, Json::Object(function)) && has(
                function@,
                "arguments"@,
                given,
            ) && command_among(Some(given)) == Some(command) ==> own_invocation(members) == Some(
                (id, command),
            ),
{
    lemma_tool_use(members);
    lemma_function_call(members);
    lemma_has_text(members, "id"@);
    assert(string_in(member(members, "id"@)) == Some(id));
    law_lookup(members, "function"@);
    let kind = string_in(member(members, "type"@));
    let input = string_in(nested(members, "input"@, "command"@));
    if kind == Some("tool_use"@) && input is Some {
        assert(is_tool_use(members, id, input->0));
    }
    if kind == Some("function_call"@) && function_call_id(members) is Some {
        assert(is_function_call(members, function_call_id(members)->0));
    }
    assert forall|function: Vec<(String, Json)>, given: Json|
        #![trigger has(members, "function"@, Json::Object(function)), has(
            function@,
            "arguments"@,
            given,
        )]
        has(members, "function"@, Json::Object(function)) && has(
            function@,
            "arguments"@,
            given,
        ) implies nested(members, "function"@, "arguments"@) == Some(given) by {
        law_lookup(function@, "arguments"@);
        assert(member(members, "function"@) == Some(Json::Object(function)));
    }
}

/// Nothing else is recorded: a pair comes from an object of one of the three shapes.
pub proof fn law_nothing_else_is_recorded(
    members: Seq<(String, Json)>,
    arguments: Option<Seq<char>>,
    function_arguments: Option<Seq<char>>,
)
    ensures
        invocation(members, arguments, function_arguments) matches Some(pair) ==> {
            ||| is_tool_use(members, pair.0, pair.1)
            ||| is_function_call(members, pair.0) && arguments == Some(pair.1)
            ||| has_text(members, "id"@, pair.0) && function_arguments == Some(pair.1)
        },
{
    lemma_tool_use(members);
    lemma_function_call(members);
    lemma_has_text(members, "id"@);
}

proof fn lemma_other_member(
    head: Seq<(String, Json)>,
    extra: (String, Json),
    tail: Seq<(String, Json)>,
    name: Seq<char>,
)
    requires
        extra.0@ != name,
    ensures
        member(head + seq![extra] + tail, name) == member(head + tail, name),
    decreases head.len(),
{
    let long = head + seq![extra] + tail;
    let short = head + tail;
    if head.len() == 0 {
        assert(long.skip(1) =~= tail);
        assert(short =~= tail);
    } else {
        lemma_other_member(head.skip(1), extra, tail, name);
        assert(long.skip(1) =~= head.skip(1) + seq![extra] + tail);
        assert(short.skip(1) =~= head.skip(1) + tail);
        assert(long[0] == head[0] && short[0] == head[0]);
    }
}

/// A member under a name that no shape knows changes nothing, wherever the object lists it.
pub proof fn law_other_members_do_not_count(
    head: Seq<(String, Json)>,
    extra: (String, Json),
    tail: Seq<(String, Json)>,
    arguments: Option<Seq<char>>,
    function_arguments: Option<Seq<char>>,
)
    requires
        extra.0@ != "type"@,
        extra.0@ != "id"@,
        extra.0@ != "call_id"@,
        extra.0@ != "input"@,
        extra.0@ != "arguments"@,
        extra.0@ != "function"@,
    ensures
        invocation(head + seq![extra] + tail, arguments, function_arguments) == invocation(
            head + tail,
            arguments,
            function_arguments,
        ),
        own_invocation(head + seq![extra] + tail) == own_invocation(head + tail),
{
    lemma_other_member(head, extra, tail, "type"@);
    lemma_other_member(head, extra, tail, "id"@);
    lemma_other_member(head, extra, tail, "call_id"@);
    lemma_other_member(head, extra, tail, "input"@);
    lemma_other_member(head, extra, tail, "arguments"@);
    lemma_other_member(head, extra, tail, "function"@);
}

/// Nor does a member of the input, or of arguments, that is not the command.
pub proof fn law_other_arguments_do_not_count(
    members: Seq<(String, Json)>,
    at: int,
    head: Seq<(String, Json)>,
    extra: (String, Json),
    tail: Seq<(String, Json)>,
    short: Vec<(String, Json)>,
    long: Vec<(String, Json)>,
    arguments: Option<Seq<char>>,
    function_arguments: Option<Seq<char>>,
)
    requires
        0 <= at < members.len(),
        members[at].0@ == "input"@,
        members[at].1 == Json::Object(short),
        extra.0@ != "command"@,
        short@ == head + tail,
        long@ == head + seq![extra] + tail,
    ensures
        invocation(
            members.update(at, (members[at].0, Json::Object(long))),
            arguments,
            function_arguments,
        ) == invocation(members, arguments, function_arguments),
        command_among(Some(Json::Object(long))) == command_among(Some(Json::Object(short))),
{
    let after = members.update(at, (members[at].0, Json::Object(long)));
    lemma_other_member(head, extra, tail, "command"@);
    reveal_strlit("input");
    reveal_strlit("type");
    reveal_strlit("id");
    reveal_strlit("call_id");
    assert("input"@.len() == 5 && "type"@.len() == 4 && "id"@.len() == 2 && "call_id"@.len() == 7);
    lemma_update(members, at, Json::Object(long), "type"@);
    lemma_update(members, at, Json::Object(long), "id"@);
    lemma_update(members, at, Json::Object(long), "call_id"@);
    lemma_update(members, at, Json::Object(long), "input"@);
    assert(nested(after, "input"@, "command"@) == nested(members, "input"@, "command"@));
}

proof fn lemma_update(members: Seq<(String, Json)>, at: int, value: Json, name: Seq<char>)
    requires
        0 <= at < members.len(),
    ensures
        members[at].0@ != name ==> member(members.update(at, (members[at].0, value)), name)
            == member(members, name),
        members[at].0@ == name ==> (member(members.update(at, (members[at].0, value)), name)
            == Some(value) && member(members, name) == Some(members[at].1)) || member(
            members.update(at, (members[at].0, value)),
            name,
        ) == member(members, name),
    decreases members.len(),
{
    let after = members.update(at, (members[at].0, value));
    if at == 0 {
        assert(after.skip(1) =~= members.skip(1));
    } else {
        lemma_update(members.skip(1), at - 1, value, name);
        assert(members.skip(1)[at - 1] == members[at]);
        assert(after.skip(1) =~= members.skip(1).update(at - 1, (members[at].0, value)));
        assert(after[0] == members[0]);
    }
}

/// What an array records is what its items record, one after another; what an object records is
/// its own invocation, if it is one, and then what its members record; and no other value records
/// anything.
pub proof fn law_recorded_in_order(
    value: Json,
    head: Seq<Json>,
    item: Json,
    first: Seq<(String, Json)>,
    entry: (String, Json),
)
    ensures
        invocations_of_items(Seq::empty()) == Seq::<(Seq<char>, Seq<char>)>::empty(),
        invocations_of_items(head.push(item)) == invocations_of_items(head) + invocations(item),
        invocations_of_members(Seq::empty()) == Seq::<(Seq<char>, Seq<char>)>::empty(),
        invocations_of_members(first.push(entry)) == invocations_of_members(first) + invocations(
            entry.1,
        ),
        value matches Json::Array(items) ==> invocations(value) == invocations_of_items(items@),
        value matches Json::Object(members) ==> invocations(value) == (match own_invocation(
            members@,
        ) {
            Some(own) => seq![own],
            None => Seq::empty(),
        }) + invocations_of_members(members@),
        value !is Array && value !is Object ==> invocations(value).len() == 0,
{
    assert(head.push(item).drop_last() =~= head);
    assert(first.push(entry).drop_last() =~= first);
    if let Json::Object(members) = value {
        assert(Seq::<(Seq<char>, Seq<char>)>::empty() + invocations_of_members(members@)
            =~= invocations_of_members(members@));
    }
}

/// Whether `part` stands in `value`, as many steps down as `depth` says.
pub open spec fn stands_in(value: Json, part: Json, depth: nat) -> bool
    decreases depth,
{
    if depth == 0 {
        part == value
    } else {
        match value {
            Json::Array(items) => exists|i: int|
                0 <= i < items@.len() && stands_in(#[trigger] items@[i], part, (depth - 1) as nat),
            Json::Object(members) => exists|i: int|
                0 <= i < members@.len() && stands_in(
                    (#[trigger] members@[i]).1,
                    part,
                    (depth - 1) as nat,
                ),
            _ => false,
        }
    }
}

proof fn lemma_items_hold(items: Seq<Json>, at: int, pair: (Seq<char>, Seq<char>))
    requires
        0 <= at < items.len(),
        invocations(items[at]).contains(pair),
    ensures
        invocations_of_items(items).contains(pair),
    decreases items.len(),
{
    let earlier = invocations_of_items(items.drop_last());
    let last = invocations(items.last());
    let all = invocations_of_items(items);
    assert(all == earlier + last);
    if at < items.len() - 1 {
        lemma_items_hold(items.drop_last(), at, pair);
        let k = choose|k: int| 0 <= k < earlier.len() && earlier[k] == pair;
        assert(all[k] == pair);
    } else {
        let k = choose|k: int| 0 <= k < last.len() && last[k] == pair;
        assert(all[earlier.len() + k] == pair);
    }
}

proof fn lemma_members_hold(
    members: Seq<(String, Json)>,
    at: int,
    pair: (Seq<char>, Seq<char>),
)
    requires
        0 <= at < members.len(),
        invocations(members[at].1).contains(pair),
    ensures
        invocations_of_members(members).contains(pair),
    decreases members.len(),
{
    let earlier = invocations_of_members(members.drop_last());
    let last = invocations(members.last().1);
    let all = invocations_of_members(members);
    assert(all == earlier + last);
    if at < members.len() - 1 {
        lemma_members_hold(members.drop_last(), at, pair);
        let k = choose|k: int| 0 <= k < earlier.len() && earlier[k] == pair;
        assert(all[k] == pair);
    } else {
        let k = choose|k: int| 0 <= k < last.len() && last[k] == pair;
        assert(all[earlier.len() + k] == pair);
    }
}

/// Every object of a document is read, however deep it stands: the invocation that it is, if it is
/// one, is among those that the document records.
pub proof fn law_every_object_is_read(
    value: Json,
    members: Vec<(String, Json)>,
    depth: nat,
    pair: (Seq<char>, Seq<char>),
)
    requires
        stands_in(value, Json::Object(members), depth),
        own_invocation(members@) == Some(pair),
    ensures
        invocations(value).contains(pair),
        entered(Map::empty(), invocations(value)).contains_key(pair.0),
    decreases depth,
{
    if depth == 0 {
        assert(invocations(value)[0] == pair);
    } else {
        match value {
            Json::Array(items) => {
                let i = choose|i: int|
                    0 <= i < items@.len() && stands_in(
                        #[trigger] items@[i],
                        Json::Object(members),
                        (depth - 1) as nat,
                    );
                law_every_object_is_read(items@[i], members, (depth - 1) as nat, pair);
                lemma_items_hold(items@, i, pair);
            },
            Json::Object(outer) => {
                let i = choose|i: int|
                    0 <= i < outer@.len() && stands_in(
                        (#[trigger] outer@[i]).1,
                        Json::Object(members),
                        (depth - 1) as nat,
                    );
                law_every_object_is_read(outer@[i].1, members, (depth - 1) as nat, pair);
                lemma_members_hold(outer@, i, pair);
                let below = invocations_of_members(outer@);
                let k = choose|k: int| 0 <= k < below.len() && below[k] == pair;
                match own_invocation(outer@) {
                    Some(own) => {
                        assert(invocations(value)[k + 1] == pair);
                    },
                    None => {},
                }
            },
            _ => {},
        }
    }
    let all = invocations(value);
    let at = choose|at: int| 0 <= at < all.len() && all[at] == pair;
    let last = lemma_last_with_id(all, at);
    law_last_invocation_counts(all);
    assert(last_of_its_id(all, last));
}

proof fn lemma_last_with_id(pairs: Seq<(Seq<char>, Seq<char>)>, from: int) -> (last: int)
    requires
        0 <= from < pairs.len(),
    ensures
        last_of_its_id(pairs, last),
        pairs[last].0 == pairs[from].0,
    decreases pairs.len() - from,
{
    if exists|k: int| from < k < pairs.len() && (#[trigger] pairs[k]).0 == pairs[from].0 {
        let k = choose|k: int| from < k < pairs.len() && (#[trigger] pairs[k]).0 == pairs[from].0;
        lemma_last_with_id(pairs, k)
    } else {
        from
    }
}

/// An invocation that no other in the document shares its id with is found under its id, with the
/// very command that it records.
pub proof fn law_sole_invocation_is_found(
    value: Json,
    members: Vec<(String, Json)>,
    depth: nat,
    pair: (Seq<char>, Seq<char>),
)
    requires
        stands_in(value, Json::Object(members), depth),
        own_invocation(members@) == Some(pair),
        forall|i: int|
            0 <= i < invocations(value).len() && (#[trigger] invocations(value)[i]).0 == pair.0
                ==> invocations(value)[i] == pair,
    ensures
        entered(Map::empty(), invocations(value))[pair.0] == pair.1,
{
    law_every_object_is_read(value, members, depth, pair);
    let all = invocations(value);
    let at = choose|at: int| 0 <= at < all.len() && all[at] == pair;
    let last = lemma_last_with_id(all, at);
    law_last_invocation_counts(all);
    assert(last_of_its_id(all, last));
}

// ----- the id of a result -------------------------------------------------------------------

/// A result carries the string that is its `tool_use_id`; where that is none, its `tool_call_id`;
/// where that is none either, its `call_id`; whatever other members it has. Only an object carries
/// one.
pub proof fn law_id_of_a_result(members: Vec<(String, Json)>, node: Json, id: Seq<char>)
    ensures
        has_text(members@, "tool_use_id"@, id) ==> id_on(Json::Object(members)) == Some(id),
        (forall|other: Seq<char>| !(#[trigger] has_text(members@, "tool_use_id"@, other)))
            && has_text(members@, "tool_call_id"@, id) ==> id_on(Json::Object(members)) == Some(id),
        (forall|other: Seq<char>| !(#[trigger] has_text(members@, "tool_use_id"@, other))) && (
        forall|other: Seq<char>| !(#[trigger] has_text(members@, "tool_call_id"@, other)))
            && has_text(members@, "call_id"@, id) ==> id_on(Json::Object(members)) == Some(id),
        id_on(Json::Object(members)) == Some(id) ==> has_text(members@, "tool_use_id"@, id)
            || has_text(members@, "tool_call_id"@, id) || has_text(members@, "call_id"@, id),
        node !is Object ==> id_on(node) is None,
{
    lemma_has_text(members@, "tool_use_id"@);
    lemma_has_text(members@, "tool_call_id"@);
    lemma_has_text(members@, "call_id"@);
    let a = string_in(member(members@, "tool_use_id"@));
    let b = string_in(member(members@, "tool_call_id"@));
    if a is Some {
        assert(has_text(members@, "tool_use_id"@, a->0));
    }
    if b is Some {
        assert(has_text(members@, "tool_call_id"@, b->0));
    }
    assert(has_text(members@, "tool_use_id"@, id) <==> a == Some(id));
    assert(has_text(members@, "tool_call_id"@, id) <==> b == Some(id));
    assert(has_text(members@, "call_id"@, id) <==> string_in(member(members@, "call_id"@)) == Some(
        id,
    ));
}

/// The document as a whole is not asked for an id on behalf of what stands in it: a member or item
/// of the document itself that carries none has none.
pub proof fn law_document_is_not_asked(raw: Json, token: Seq<char>)
    requires
        !token.contains('/'),
        match resolve(raw, seq!['/'] + token) {
            Some(node) => id_on(node) is None,
            None => true,
        },
    ensures
        nearest_id(raw, seq!['/'] + token) is None,
        nearest_id(raw, Seq::empty()) == id_on(raw),
{
    law_find_last(Seq::empty(), '/', token);
    assert(Seq::<char>::empty() + seq!['/'] + token =~= seq!['/'] + token);
    assert(!Seq::<char>::empty().contains('/'));
    law_find_last(Seq::empty(), '/', Seq::empty());
}

/// The command for a result is the one entered under its id, whatever it is, and there is none
/// where the id is missing or nothing was entered under it.
pub proof fn law_command_of_a_result(
    commands: Map<Seq<char>, Seq<char>>,
    raw: Json,
    pointer: Seq<char>,
)
    ensures
        nearest_id(raw, pointer) matches Some(id) ==> commands.contains_key(id)
            ==> producing_command(commands, raw, pointer) == Some(commands[id]),
        nearest_id(raw, pointer) matches Some(id) ==> !commands.contains_key(id)
            ==> producing_command(commands, raw, pointer) is None,
        nearest_id(raw, pointer) is None ==> producing_command(commands, raw, pointer) is None,
{
}

/// A pair that is there is seen as it is.
pub proof fn law_owned_views(id: String, command: String, members: Vec<(String, Option<String>)>)
    ensures
        text_behind(Some(id)) == Some(id@),
        text_behind(None) is None,
        pair_behind(Some((id, command))) == Some((id@, command@)),
        pair_behind(None) is None,
        texts_behind(None) is None,
        texts_behind(Some(members)) is Some,
        texts_behind(Some(members))->0.len() == members@.len(),
        forall|i: int|
            0 <= i < members@.len() ==> #[trigger] texts_behind(Some(members))->0[i] == (
                members@[i].0@,
                text_behind(members@[i].1),
            ),
{
}

} // verus!
