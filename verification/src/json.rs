//! A JSON document as plain values, and the lookups the gateway makes in one.
use vstd::arithmetic::power::pow;
use vstd::prelude::*;

use crate::text::{
    before, chars_of, find, lemma_find, lemma_find_unique, lemma_replace_absent, occurs, pieces,
    position_of, replace, replaced, same_text, starts_with, string_of,
};

verus! {

/// A JSON value.
#[derive(Debug, PartialEq, Eq)]
pub enum Json {
    Null,
    Bool(bool),
    /// A number, as it is written.
    Number(String),
    Str(String),
    Array(Vec<Json>),
    /// The members of an object, in the order in which it lists them. Of a name that is listed
    /// twice the first counts.
    Object(Vec<(String, Json)>),
}

/// The value of the first member called `name`.
pub open spec fn member(members: Seq<(String, Json)>, name: Seq<char>) -> Option<Json>
    decreases members.len(),
{
    if members.len() == 0 {
        None
    } else if members[0].0@ == name {
        Some(members[0].1)
    } else {
        member(members.skip(1), name)
    }
}

/// The value of the member called `name`, of a value that is an object.
pub open spec fn get(value: Json, name: Seq<char>) -> Option<Json> {
    match value {
        Json::Object(members) => member(members@, name),
        _ => None,
    }
}

/// The text of a value that is a string.
pub open spec fn string(value: Json) -> Option<Seq<char>> {
    match value {
        Json::Str(text) => Some(text@),
        _ => None,
    }
}

/// The text of a value, if there is one and it is a string.
pub open spec fn string_in(value: Option<Json>) -> Option<Seq<char>> {
    match value {
        Some(value) => string(value),
        None => None,
    }
}

/// Whether an executable lookup found what a specified one says.
pub open spec fn found(value: Option<&Json>, expected: Option<Json>) -> bool {
    match value {
        Some(value) => expected == Some(*value),
        None => expected is None,
    }
}

/// The member called `name`.
pub fn find_member<'a>(members: &'a Vec<(String, Json)>, name: &str) -> (value: Option<&'a Json>)
    ensures
        found(value, member(members@, name@)),
{
    let mut i: usize = 0;
    assert(members@.skip(0) =~= members@);
    while i < members.len()
        invariant
            i <= members@.len(),
            member(members@, name@) == member(members@.skip(i as int), name@),
        decreases members@.len() - i,
    {
        assert(members@.skip(i as int).skip(1) =~= members@.skip(i + 1));
        if same_text(members[i].0.as_str(), name) {
            return Some(&members[i].1);
        }
        i += 1;
    }
    None
}

impl Json {
    /// The member called `name`, of a value that is an object.
    pub fn get(&self, name: &str) -> (value: Option<&Json>)
        ensures
            found(value, get(*self, name@)),
    {
        match self {
            Json::Object(members) => find_member(members, name),
            _ => None,
        }
    }

    /// The text of a value that is a string.
    pub fn as_str(&self) -> (text: Option<&str>)
        ensures
            match text {
                Some(text) => string(*self) == Some(text@),
                None => string(*self) is None,
            },
    {
        match self {
            Json::Str(text) => Some(text.as_str()),
            _ => None,
        }
    }
}

// ----- how a value is written ---------------------------------------------------------------

pub open spec fn hex_digit(n: int) -> char {
    if n < 10 {
        ('0' as int + n) as char
    } else {
        ('a' as int + n - 10) as char
    }
}

/// A character as it is written in a string.
pub open spec fn escaped(c: char) -> Seq<char> {
    if c == '"' || c == '\\' {
        seq!['\\', c]
    } else if c == '\u{8}' {
        seq!['\\', 'b']
    } else if c == '\t' {
        seq!['\\', 't']
    } else if c == '\n' {
        seq!['\\', 'n']
    } else if c == '\u{c}' {
        seq!['\\', 'f']
    } else if c == '\r' {
        seq!['\\', 'r']
    } else if c <= '\u{1f}' {
        seq!['\\', 'u', '0', '0', hex_digit(c as int / 16), hex_digit(c as int % 16)]
    } else {
        seq![c]
    }
}

pub open spec fn escaped_text(text: Seq<char>) -> Seq<char>
    decreases text.len(),
{
    if text.len() == 0 {
        Seq::empty()
    } else {
        escaped_text(text.drop_last()) + escaped(text.last())
    }
}

/// A string as it is written.
pub open spec fn quoted(text: Seq<char>) -> Seq<char> {
    seq!['"'] + escaped_text(text) + seq!['"']
}

/// A value as it is written, without white space.
pub open spec fn written(value: Json) -> Seq<char>
    decreases value,
{
    match value {
        Json::Null => "null"@,
        Json::Bool(true) => "true"@,
        Json::Bool(false) => "false"@,
        Json::Number(text) => text@,
        Json::Str(text) => quoted(text@),
        Json::Array(items) => seq!['['] + written_items(items@) + seq![']'],
        Json::Object(members) => seq!['{'] + written_members(members@) + seq!['}'],
    }
}

pub open spec fn written_items(items: Seq<Json>) -> Seq<char>
    decreases items,
{
    if items.len() == 0 {
        Seq::empty()
    } else if items.len() == 1 {
        written(items.last())
    } else {
        written_items(items.drop_last()) + seq![','] + written(items.last())
    }
}

pub open spec fn written_members(members: Seq<(String, Json)>) -> Seq<char>
    decreases members,
{
    if members.len() == 0 {
        Seq::empty()
    } else {
        let last = quoted(members.last().0@) + seq![':'] + written(members.last().1);
        if members.len() == 1 {
            last
        } else {
            written_members(members.drop_last()) + seq![','] + last
        }
    }
}

/// Whether `text` is a run of digits, at least one.
pub open spec fn is_digits(text: Seq<char>) -> bool {
    &&& text.len() > 0
    &&& forall|i: int| 0 <= i < text.len() ==> is_digit(#[trigger] text[i])
}

/// The digits of a fraction, behind its point.
pub open spec fn fraction_digits(fraction: Seq<char>) -> Seq<char> {
    if fraction.len() == 0 {
        Seq::empty()
    } else {
        fraction.skip(1)
    }
}

/// The digits of an exponent, behind its letter and its sign.
pub open spec fn exponent_digits(exponent: Seq<char>) -> Seq<char> {
    if exponent.len() > 1 && (exponent[1] == '+' || exponent[1] == '-') {
        exponent.skip(2)
    } else {
        exponent.skip(1)
    }
}

/// The power of ten that an exponent stands for; none stands for the power zero.
pub open spec fn exponent_value(exponent: Seq<char>) -> int {
    if exponent.len() == 0 {
        0
    } else if exponent.len() > 1 && exponent[1] == '-' {
        -decimal(exponent_digits(exponent))
    } else {
        decimal(exponent_digits(exponent)) as int
    }
}

/// Whether `text` is a number made of these parts: a minus sign or nothing, digits with no zero
/// before another digit, a point with digits or nothing, and an exponent or nothing.
pub open spec fn is_number(
    text: Seq<char>,
    minus: Seq<char>,
    whole: Seq<char>,
    fraction: Seq<char>,
    exponent: Seq<char>,
) -> bool {
    &&& text == minus + whole + fraction + exponent
    &&& minus.len() == 0 || minus == seq!['-']
    &&& is_digits(whole) && (whole.len() == 1 || whole[0] != '0')
    &&& fraction.len() == 0 || (fraction[0] == '.' && is_digits(fraction_digits(fraction)))
    &&& exponent.len() == 0 || ((exponent[0] == 'e' || exponent[0] == 'E') && is_digits(
        exponent_digits(exponent),
    ))
}

/// Whether `digits` times ten to the power `scale` is less than 17976 times ten to the power 304,
/// which is just below the greatest number that 64 bits of floating point hold.
pub open spec fn is_in_range(digits: nat, scale: int) -> bool {
    if scale >= 304 {
        digits * pow(10, (scale - 304) as nat) < 17976
    } else {
        digits < 17976 * pow(10, (304 - scale) as nat)
    }
}

/// Whether `text` is a number that can be held: one of the grammar of JSON, in range, and not some
/// gigabyte long.
pub open spec fn is_plain_number(text: Seq<char>) -> bool {
    &&& text.len() <= 0x4000_0000
    &&& exists|minus: Seq<char>, whole: Seq<char>, fraction: Seq<char>, exponent: Seq<char>|
        #[trigger] is_number(text, minus, whole, fraction, exponent) && is_in_range(
            decimal(whole + fraction_digits(fraction)),
            exponent_value(exponent) - fraction_digits(fraction).len(),
        )
}

/// Whether arrays and objects nest at most `depth` deep in a value, and its numbers are plain.
pub open spec fn plain(value: Json, depth: nat) -> bool
    decreases depth,
{
    match value {
        Json::Number(text) => is_plain_number(text@),
        Json::Array(items) => depth > 0 && forall|i: int|
            0 <= i < items@.len() ==> plain(#[trigger] items@[i], (depth - 1) as nat),
        Json::Object(members) => depth > 0 && forall|i: int|
            0 <= i < members@.len() ==> plain((#[trigger] members@[i]).1, (depth - 1) as nat),
        _ => true,
    }
}

/// Whether an object lists no name twice.
pub open spec fn names_differ(members: Seq<(String, Json)>) -> bool {
    forall|i: int, j: int|
        0 <= i < j < members.len() ==> (#[trigger] members[i]).0@ != (#[trigger] members[j]).0@
}

// ----- pointers -----------------------------------------------------------------------------

/// A token of a pointer with its escapes undone: `~1` stands for `/`, and then `~0` for `~`.
pub open spec fn unescape(token: Seq<char>) -> Seq<char> {
    replace(replace(token, "~1"@, "/"@), "~0"@, "~"@)
}

pub open spec fn is_digit(c: char) -> bool {
    '0' <= c <= '9'
}

/// The number that a run of digits stands for.
pub open spec fn decimal(digits: Seq<char>) -> nat
    decreases digits.len(),
{
    if digits.len() == 0 {
        0
    } else {
        decimal(digits.drop_last()) * 10 + (digits.last() as u32 - '0' as u32) as nat
    }
}

/// The array position that a token names: digits alone, and no zero before another digit.
pub open spec fn index_named(token: Seq<char>) -> Option<nat> {
    if token.len() == 0 || (token[0] == '0' && token.len() > 1) || exists|i: int|
        0 <= i < token.len() && !is_digit(#[trigger] token[i]) {
        None
    } else {
        Some(decimal(token))
    }
}

/// One step down into a value: the member that a token names, or the item.
pub open spec fn child(value: Json, token: Seq<char>) -> Option<Json> {
    match value {
        Json::Object(members) => member(members@, token),
        Json::Array(items) => match index_named(token) {
            Some(at) => if at < items@.len() {
                Some(items@[at as int])
            } else {
                None
            },
            None => None,
        },
        _ => None,
    }
}

/// One step after another down into a value.
pub open spec fn descend(value: Json, tokens: Seq<Seq<char>>) -> Option<Json>
    decreases tokens.len(),
{
    if tokens.len() == 0 {
        Some(value)
    } else {
        match child(value, unescape(tokens[0])) {
            Some(below) => descend(below, tokens.skip(1)),
            None => None,
        }
    }
}

/// The value that a JSON pointer addresses: the whole document for the empty pointer, else what
/// the tokens behind its slashes lead to.
pub open spec fn resolve(value: Json, pointer: Seq<char>) -> Option<Json> {
    if pointer.len() == 0 {
        Some(value)
    } else if pointer[0] != '/' {
        None
    } else {
        descend(value, pieces(pointer.skip(1), '/'))
    }
}

fn unescaped(token: &Vec<char>) -> (plain: Vec<char>)
    ensures
        plain@ == unescape(token@),
{
    proof {
        reveal_strlit("~1");
        reveal_strlit("~0");
    }
    let slashes = replaced(token, &chars_of("~1"), &chars_of("/"));
    replaced(&slashes, &chars_of("~0"), &chars_of("~"))
}

proof fn lemma_decimal_grows(digits: Seq<char>, at: int)
    requires
        0 <= at <= digits.len(),
    ensures
        decimal(digits.take(at)) <= decimal(digits),
    decreases digits.len() - at,
{
    if at < digits.len() {
        assert(digits.take(at + 1).drop_last() =~= digits.take(at));
        lemma_decimal_grows(digits, at + 1);
    } else {
        assert(digits.take(at) =~= digits);
    }
}

/// The position below `bound` that a token names.
fn position_named(token: &Vec<char>, bound: usize) -> (at: Option<usize>)
    ensures
        match at {
            Some(at) => index_named(token@) == Some(at as nat) && at < bound,
            None => index_named(token@) is None || index_named(token@)->0 >= bound,
        },
{
    if token.len() == 0 || (token[0] == '0' && token.len() > 1) {
        return None;
    }
    let mut value: usize = 0;
    let mut i: usize = 0;
    while i < token.len()
        invariant
            i <= token@.len(),
            i == 0 || value < bound,
            value == decimal(token@.take(i as int)),
            value <= usize::MAX,
            forall|k: int| 0 <= k < i ==> is_digit(#[trigger] token@[k]),
            token@.len() > 0,
            !(token@[0] == '0' && token@.len() > 1),
        decreases token@.len() - i,
    {
        let c: char = token[i];
        if !('0' <= c && c <= '9') {
            assert(!is_digit(token@[i as int]));
            return None;
        }
        assert(token@.take(i + 1).drop_last() =~= token@.take(i as int));
        let next: u128 = value as u128 * 10 + (c as u32 - '0' as u32) as u128;
        if next >= bound as u128 {
            proof {
                lemma_decimal_grows(token@, i + 1);
            }
            return None;
        }
        value = next as usize;
        i += 1;
    }
    assert(token@.take(i as int) =~= token@);
    Some(value)
}

impl Json {
    /// One step down into the value.
    fn child(&self, token: &Vec<char>) -> (value: Option<&Json>)
        ensures
            found(value, child(*self, token@)),
    {
        match self {
            Json::Object(members) => {
                let name = string_of(token, 0, token.len());
                assert(name@ =~= token@);
                find_member(members, name.as_str())
            },
            Json::Array(items) => match position_named(token, items.len()) {
                Some(at) => Some(&items[at]),
                None => None,
            },
            _ => None,
        }
    }

    /// The value that a JSON pointer addresses.
    pub fn pointer(&self, pointer: &str) -> (value: Option<&Json>)
        ensures
            found(value, resolve(*self, pointer@)),
    {
        let chars = chars_of(pointer);
        if chars.len() == 0 {
            return Some(self);
        }
        if chars[0] != '/' {
            return None;
        }
        let mut node: &Json = self;
        let mut from: usize = 1;
        loop
            invariant
                1 <= from <= chars@.len(),
                chars@ == pointer@,
                resolve(*self, pointer@) == descend(*node, pieces(chars@.skip(from as int), '/')),
            decreases chars@.len() - from,
        {
            let to = position_of(&chars, from, '/');
            let ghost rest = chars@.skip(from as int);
            let mut token: Vec<char> = Vec::new();
            let mut i: usize = from;
            while i < to
                invariant
                    from <= i <= to <= chars@.len(),
                    token@ == chars@.subrange(from as int, i as int),
                decreases to - i,
            {
                token.push(chars[i]);
                i += 1;
            }
            assert(token@ =~= before(rest, '/'));
            proof {
                let all = pieces(rest, '/');
                assert(all[0] == token@) by {
                    if to == chars@.len() {
                        assert(token@ =~= rest);
                    }
                }
                if to < chars@.len() {
                    assert(rest.skip(find(rest, '/') as int + 1) =~= chars@.skip(to + 1));
                    assert(all.skip(1) =~= pieces(chars@.skip(to + 1), '/'));
                } else {
                    assert(all.skip(1) =~= Seq::<Seq<char>>::empty());
                }
            }
            match node.child(&unescaped(&token)) {
                Some(below) => {
                    node = below;
                },
                None => return None,
            }
            if to == chars.len() {
                assert(descend(*node, Seq::empty()) == Some(*node));
                return Some(node);
            }
            from = to + 1;
        }
    }
}

// ----- what pointers promise ----------------------------------------------------------------

/// Cutting a text at `c`, with one more `c` and a piece without any behind it, gives that piece
/// behind the others.
pub proof fn lemma_pieces_push(text: Seq<char>, c: char, piece: Seq<char>)
    requires
        !piece.contains(c),
    ensures
        pieces(text + seq![c] + piece, c) == pieces(text, c).push(piece),
    decreases text.len(),
{
    let long = text + seq![c] + piece;
    lemma_find(text, c);
    let at = find(text, c) as int;
    assert(long[at] == c);
    lemma_find_unique(long, c, at);
    assert(before(long, c) =~= before(text, c));
    if at < text.len() {
        let rest = text.skip(at + 1);
        assert(long.skip(at + 1) =~= rest + seq![c] + piece);
        lemma_pieces_push(rest, c, piece);
        assert(pieces(long, c) =~= pieces(text, c).push(piece));
    } else {
        assert(long.skip(at + 1) =~= piece);
        assert forall|k: int| 0 <= k < piece.len() implies piece[k] != c by {
            assert(piece.contains(piece[k]));
        }
        lemma_find_unique(piece, c, piece.len() as int);
        assert(before(text, c) =~= text);
        assert(pieces(piece, c) == seq![piece]);
        assert(pieces(long, c) =~= pieces(text, c).push(piece));
    }
}

proof fn lemma_descend_further(value: Json, tokens: Seq<Seq<char>>, token: Seq<char>)
    ensures
        descend(value, tokens.push(token)) == match descend(value, tokens) {
            Some(below) => child(below, unescape(token)),
            None => None,
        },
    decreases tokens.len(),
{
    let all = tokens.push(token);
    if tokens.len() == 0 {
        assert(all.skip(1) =~= Seq::<Seq<char>>::empty());
        match child(value, unescape(token)) {
            Some(below) => {
                assert(descend(below, Seq::empty()) == Some(below));
            },
            None => {},
        }
    } else {
        assert(all.skip(1) =~= tokens.skip(1).push(token));
        match child(value, unescape(tokens[0])) {
            Some(below) => {
                lemma_descend_further(below, tokens.skip(1), token);
            },
            None => {},
        }
    }
}

/// A pointer with one more token addresses a child of what the pointer addresses: the member or
/// the item that the token names.
pub proof fn law_pointer_goes_one_step_down(value: Json, pointer: Seq<char>, token: Seq<char>)
    requires
        pointer.len() == 0 || pointer[0] == '/',
        !token.contains('/'),
    ensures
        resolve(value, pointer + seq!['/'] + token) == match resolve(value, pointer) {
            Some(node) => child(node, unescape(token)),
            None => None,
        },
{
    let long = pointer + seq!['/'] + token;
    if pointer.len() == 0 {
        assert(long.skip(1) =~= token);
        assert forall|k: int| 0 <= k < token.len() implies token[k] != '/' by {
            assert(token.contains(token[k]));
        }
        lemma_find_unique(token, '/', token.len() as int);
        assert(pieces(token, '/') =~= Seq::<Seq<char>>::empty().push(token));
        lemma_descend_further(value, Seq::empty(), token);
    } else {
        assert(long.skip(1) =~= pointer.skip(1) + seq!['/'] + token);
        lemma_pieces_push(pointer.skip(1), '/', token);
        lemma_descend_further(value, pieces(pointer.skip(1), '/'), token);
    }
}

/// A token without a tilde stands for itself.
pub proof fn law_plain_token_is_itself(token: Seq<char>)
    requires
        !token.contains('~'),
    ensures
        unescape(token) == token,
{
    reveal_strlit("~1");
    reveal_strlit("~0");
    assert forall|piece: Seq<char>| piece.len() > 0 && piece[0] == '~' implies !occurs(
        token,
        piece,
    ) by {
        if occurs(token, piece) {
            let i = choose|i: int|
                0 <= i <= token.len() && #[trigger] starts_with(token.skip(i), piece);
            assert(token.skip(i).take(piece.len() as int)[0] == '~');
            assert(token[i] == '~');
        }
    }
    lemma_replace_absent(token, "~1"@, "/"@);
    lemma_replace_absent(token, "~0"@, "~"@);
}


// ----- what lookups promise -----------------------------------------------------------------

/// Whether an object lists no member called `name`.
pub open spec fn lacks(members: Seq<(String, Json)>, name: Seq<char>) -> bool {
    forall|i: int| 0 <= i < members.len() ==> (#[trigger] members[i]).0@ != name
}

/// Whether the first member called `name` is `value`, whatever other members stand before and
/// behind it.
pub open spec fn has(members: Seq<(String, Json)>, name: Seq<char>, value: Json) -> bool {
    exists|at: int|
        0 <= at < members.len() && (#[trigger] members[at]).0@ == name && members[at].1 == value
            && lacks(members.take(at), name)
}

/// A lookup finds the first member of the name it is given, whatever else the object lists, however
/// much of it, and nothing where it lists none.
pub proof fn law_lookup(members: Seq<(String, Json)>, name: Seq<char>)
    ensures
        lacks(members, name) <==> member(members, name) is None,
        forall|value: Json| #[trigger]
            has(members, name, value) <==> member(members, name) == Some(value),
    decreases members.len(),
{
    if members.len() > 0 {
        let rest = members.skip(1);
        law_lookup(rest, name);
        assert forall|i: int| 0 <= i < rest.len() implies #[trigger] rest[i] == members[i + 1] by {}
        if members[0].0@ == name {
            assert(!lacks(members, name));
            assert(lacks(members.take(0), name));
            assert(has(members, name, members[0].1));
            assert forall|value: Json| has(members, name, value) implies value
                == members[0].1 by {
                let at = choose|at: int|
                    0 <= at < members.len() && (#[trigger] members[at]).0@ == name
                        && members[at].1 == value && lacks(members.take(at), name);
                if at > 0 {
                    assert(members.take(at)[0].0@ == name);
                }
            }
        } else {
            if lacks(rest, name) {
                assert forall|i: int| 0 <= i < members.len() implies (#[trigger] members[i]).0@
                    != name by {
                    if i > 0 {
                        assert(rest[i - 1].0@ != name);
                    }
                }
            }
            if lacks(members, name) {
                assert forall|i: int| 0 <= i < rest.len() implies (#[trigger] rest[i]).0@
                    != name by {
                    assert(members[i + 1].0@ != name);
                }
            }
            assert forall|value: Json| #[trigger]
                has(members, name, value) == has(rest, name, value) by {
                if has(members, name, value) {
                    let at = choose|at: int|
                        0 <= at < members.len() && (#[trigger] members[at]).0@ == name
                            && members[at].1 == value && lacks(members.take(at), name);
                    assert forall|i: int| 0 <= i < at - 1 implies (#[trigger] rest.take(
                        at - 1,
                    )[i]).0@ != name by {
                        assert(members.take(at)[i + 1].0@ != name);
                    }
                    assert(rest[at - 1].0@ == name && rest[at - 1].1 == value);
                }
                if has(rest, name, value) {
                    let at = choose|at: int|
                        0 <= at < rest.len() && (#[trigger] rest[at]).0@ == name && rest[at].1
                            == value && lacks(rest.take(at), name);
                    assert forall|i: int| 0 <= i < at + 1 implies (#[trigger] members.take(
                        at + 1,
                    )[i]).0@ != name by {
                        if i > 0 {
                            assert(rest.take(at)[i - 1].0@ != name);
                        }
                    }
                    assert(members[at + 1].0@ == name && members[at + 1].1 == value);
                }
            }
        }
    }
}

/// A value has members only where it is an object, and a text only where it is a string: then the
/// whole of it, whatever its length.
pub proof fn law_kinds_of_values(value: Json, name: Seq<char>)
    ensures
        value matches Json::Object(members) ==> get(value, name) == member(members@, name),
        value !is Object ==> get(value, name) is None,
        value matches Json::Str(text) ==> string(value) == Some(text@),
        value !is Str ==> string(value) is None,
        string_in(None) is None,
        string_in(Some(value)) == string(value),
{
}

/// A position is written in decimal digits, the last of them for the ones.
pub proof fn law_decimal(digits: Seq<char>, digit: char)
    requires
        '0' <= digit <= '9',
    ensures
        decimal(Seq::empty()) == 0,
        decimal(digits.push(digit)) == 10 * decimal(digits) + (digit as int - '0' as int),
{
    assert(digits.push(digit).drop_last() =~= digits);
}

/// A token steps into an array by a position written in digits alone, none of them a zero before
/// another, and below the array's length; into an object by a name; and into nothing else.
pub proof fn law_step(value: Json, token: Seq<char>)
    ensures
        value matches Json::Object(members) ==> child(value, token) == member(members@, token),
        value matches Json::Array(items) ==> {
            let named = token.len() > 0 && (forall|i: int|
                0 <= i < token.len() ==> '0' <= #[trigger] token[i] <= '9') && (token.len() == 1
                || token[0] != '0') && decimal(token) < items@.len();
            child(value, token) == if named {
                Some(items@[decimal(token) as int])
            } else {
                None
            }
        },
        value !is Object && value !is Array ==> child(value, token) is None,
{
    if let Json::Array(items) = value {
        if forall|i: int| 0 <= i < token.len() ==> '0' <= #[trigger] token[i] <= '9' {
            assert forall|i: int| 0 <= i < token.len() implies is_digit(#[trigger] token[i]) by {}
        } else {
            let i = choose|i: int| 0 <= i < token.len() && !('0' <= #[trigger] token[i] <= '9');
            assert(!is_digit(token[i]));
        }
    }
}

/// The whole document is what the empty pointer addresses, and a pointer that does not begin with a
/// slash addresses nothing.
pub proof fn law_pointer_starts_at_the_document(value: Json, pointer: Seq<char>)
    ensures
        resolve(value, Seq::empty()) == Some(value),
        pointer.len() > 0 && pointer[0] != '/' ==> resolve(value, pointer) is None,
{
}

/// A name as a token of a pointer: `~` written as `~0`, and `/` as `~1`.
pub open spec fn as_token(name: Seq<char>) -> Seq<char>
    decreases name.len(),
{
    if name.len() == 0 {
        Seq::empty()
    } else {
        (if name[0] == '~' {
            seq!['~', '0']
        } else if name[0] == '/' {
            seq!['~', '1']
        } else {
            seq![name[0]]
        }) + as_token(name.skip(1))
    }
}

/// The same with the slashes as they are.
spec fn half_token(name: Seq<char>) -> Seq<char>
    decreases name.len(),
{
    if name.len() == 0 {
        Seq::empty()
    } else {
        (if name[0] == '~' {
            seq!['~', '0']
        } else {
            seq![name[0]]
        }) + half_token(name.skip(1))
    }
}

proof fn lemma_replace_one(c: char, rest: Seq<char>, from: Seq<char>, to: Seq<char>)
    requires
        from.len() == 2,
        from[0] == '~',
        c != '~' || rest.len() == 0 || rest[0] != from[1],
    ensures
        replace(seq![c] + rest, from, to) == seq![c] + replace(rest, from, to),
{
    let text = seq![c] + rest;
    assert(text.skip(1) =~= rest);
    if text.len() >= 2 {
        if text.take(2) == from {
            assert(text.take(2)[0] == c);
            assert(text.take(2)[1] == rest[0]);
        }
    }
}

proof fn lemma_replace_pair(from: Seq<char>, rest: Seq<char>, to: Seq<char>)
    requires
        from.len() == 2,
    ensures
        replace(from + rest, from, to) == to + replace(rest, from, to),
{
    let text = from + rest;
    assert(text.take(2) =~= from);
    assert(text.skip(2) =~= rest);
}

proof fn lemma_slashes_undone(name: Seq<char>)
    ensures
        replace(as_token(name), "~1"@, "/"@) == half_token(name),
    decreases name.len(),
{
    reveal_strlit("~1");
    reveal_strlit("/");
    assert("~1"@ =~= seq!['~', '1']);
    if name.len() > 0 {
        let rest = as_token(name.skip(1));
        lemma_slashes_undone(name.skip(1));
        if name[0] == '/' {
            lemma_replace_pair("~1"@, rest, "/"@);
            assert("/"@ =~= seq!['/']);
        } else if name[0] == '~' {
            assert(seq!['~', '0'] + rest =~= seq!['~'] + (seq!['0'] + rest));
            lemma_replace_one('~', seq!['0'] + rest, "~1"@, "/"@);
            lemma_replace_one('0', rest, "~1"@, "/"@);
            assert(seq!['~'] + (seq!['0'] + half_token(name.skip(1))) =~= half_token(name));
        } else {
            lemma_replace_one(name[0], rest, "~1"@, "/"@);
        }
    }
}

proof fn lemma_tildes_undone(name: Seq<char>)
    ensures
        replace(half_token(name), "~0"@, "~"@) == name,
    decreases name.len(),
{
    reveal_strlit("~0");
    reveal_strlit("~");
    assert("~0"@ =~= seq!['~', '0']);
    if name.len() > 0 {
        let rest = half_token(name.skip(1));
        lemma_tildes_undone(name.skip(1));
        if name[0] == '~' {
            lemma_replace_pair("~0"@, rest, "~"@);
            assert("~"@ =~= seq!['~']);
        } else {
            lemma_replace_one(name[0], rest, "~0"@, "~"@);
        }
        assert(seq![name[0]] + name.skip(1) =~= name);
    }
}

/// Every name can be written as a token: read back, it is the name again, whatever is in it.
pub proof fn law_every_name_is_a_token(name: Seq<char>)
    ensures
        unescape(as_token(name)) == name,
{
    lemma_slashes_undone(name);
    lemma_tildes_undone(name);
}


proof fn lemma_first_after_replacing(text: Seq<char>)
    ensures
        text.len() > 0 ==> replace(text, "~1"@, "/"@).len() > 0 && (replace(
            text,
            "~1"@,
            "/"@,
        )[0] == text[0] || replace(text, "~1"@, "/"@)[0] == '/'),
        text.len() == 0 ==> replace(text, "~1"@, "/"@).len() == 0,
{
    reveal_strlit("~1");
    reveal_strlit("/");
}

/// A token is read from left to right: `~1` as a slash, `~0` as a tilde, and every other character
/// as itself, a tilde with neither behind it too.
pub proof fn law_token_is_read_from_left_to_right(c: char, rest: Seq<char>)
    ensures
        unescape(Seq::empty()) == Seq::<char>::empty(),
        unescape(seq!['~', '1'] + rest) == seq!['/'] + unescape(rest),
        unescape(seq!['~', '0'] + rest) == seq!['~'] + unescape(rest),
        c != '~' || rest.len() == 0 || (rest[0] != '0' && rest[0] != '1') ==> unescape(
            seq![c] + rest,
        ) == seq![c] + unescape(rest),
{
    reveal_strlit("~1");
    reveal_strlit("~0");
    reveal_strlit("/");
    reveal_strlit("~");
    assert("~1"@ =~= seq!['~', '1']);
    assert("~0"@ =~= seq!['~', '0']);
    assert("/"@ =~= seq!['/']);
    assert("~"@ =~= seq!['~']);
    let once = replace(rest, "~1"@, "/"@);
    lemma_replace_pair("~1"@, rest, "/"@);
    lemma_replace_one('/', once, "~0"@, "~"@);
    assert(seq!['~', '0'] + rest =~= seq!['~'] + (seq!['0'] + rest));
    lemma_replace_one('~', seq!['0'] + rest, "~1"@, "/"@);
    lemma_replace_one('0', rest, "~1"@, "/"@);
    assert(seq!['~'] + (seq!['0'] + once) =~= "~0"@ + once);
    lemma_replace_pair("~0"@, once, "~"@);
    lemma_first_after_replacing(rest);
    if c != '~' || rest.len() == 0 || (rest[0] != '0' && rest[0] != '1') {
        lemma_replace_one(c, rest, "~1"@, "/"@);
        lemma_replace_one(c, once, "~0"@, "~"@);
    }
}

} // verus!
