//! Text as the gateway reads it: sequences of characters, compared, trimmed, lowered and
//! rewritten one character at a time, and ordered by the bytes that encode them.
use vstd::prelude::*;
use vstd::slice::slice_subrange;
use vstd::utf8::{encode_scalar, encode_utf8, encode_utf8_decode_utf8};

verus! {

/// `String::push` appends one character to the end of the string and changes nothing else.
pub assume_specification[ String::push ](text: &mut String, c: char)
    ensures
        final(text)@ == old(text)@.push(c),
;

// ----- characters ---------------------------------------------------------------------------

/// The characters that carry Unicode's `White_Space` property.
pub open spec fn is_white_space(c: char) -> bool {
    ||| '\u{9}' <= c <= '\u{d}'
    ||| c == ' '
    ||| c == '\u{85}'
    ||| c == '\u{a0}'
    ||| c == '\u{1680}'
    ||| '\u{2000}' <= c <= '\u{200a}'
    ||| c == '\u{2028}'
    ||| c == '\u{2029}'
    ||| c == '\u{202f}'
    ||| c == '\u{205f}'
    ||| c == '\u{3000}'
}

pub fn white_space(c: char) -> (yes: bool)
    ensures
        yes == is_white_space(c),
{
    ('\u{9}' <= c && c <= '\u{d}') || c == ' ' || c == '\u{85}' || c == '\u{a0}' || c == '\u{1680}'
        || ('\u{2000}' <= c && c <= '\u{200a}') || c == '\u{2028}' || c == '\u{2029}' || c
        == '\u{202f}' || c == '\u{205f}' || c == '\u{3000}'
}

/// `c` with an ASCII capital letter made small.
pub open spec fn lower_char(c: char) -> char {
    if 'A' <= c <= 'Z' {
        (c as u32 + 32) as char
    } else {
        c
    }
}

pub fn lowered_char(c: char) -> (small: char)
    ensures
        small == lower_char(c),
{
    if 'A' <= c && c <= 'Z' {
        (c as u8 + 32) as char
    } else {
        c
    }
}

/// `text` with every ASCII capital letter made small.
pub open spec fn lower(text: Seq<char>) -> Seq<char> {
    text.map_values(|c: char| lower_char(c))
}

/// Lowering twice changes nothing more than lowering once.
pub proof fn lemma_lower_idempotent(text: Seq<char>)
    ensures
        lower(lower(text)) == lower(text),
{
    assert(lower(lower(text)) =~= lower(text));
}

/// The characters of `text`, in order.
pub fn chars_of(text: &str) -> (chars: Vec<char>)
    ensures
        chars@ == text@,
{
    let mut chars: Vec<char> = Vec::new();
    for c in it: text.chars()
        invariant
            chars@ == it.seq().take(it.index() as int),
            it.seq() == text@,
    {
        chars.push(c);
    }
    chars
}

/// The string made of `chars[from..to]`.
pub fn string_of(chars: &Vec<char>, from: usize, to: usize) -> (text: String)
    requires
        from <= to <= chars@.len(),
    ensures
        text@ == chars@.subrange(from as int, to as int),
{
    let mut text = String::new();
    let mut i: usize = from;
    while i < to
        invariant
            from <= i <= to <= chars@.len(),
            text@ == chars@.subrange(from as int, i as int),
        decreases to - i,
    {
        text.push(chars[i]);
        i += 1;
    }
    text
}

/// An owned copy of `text`.
pub fn copy_of(text: &str) -> (copy: String)
    ensures
        copy@ == text@,
{
    text.to_owned()
}

/// `text` with every ASCII capital letter made small.
pub fn lowered(text: &str) -> (small: String)
    ensures
        small@ == lower(text@),
{
    let mut small = String::new();
    for c in it: text.chars()
        invariant
            it.seq() == text@,
            small@ == lower(it.seq().take(it.index() as int)),
    {
        small.push(lowered_char(c));
        assert(small@ =~= lower(text@.take(it.index() as int + 1)));
    }
    assert(text@.take(text@.len() as int) =~= text@);
    small
}

/// Whether two texts hold the same characters once ASCII capitals are made small.
pub fn same_ignoring_case(chars: &Vec<char>, from: usize, to: usize, other: &Vec<char>) -> (same: bool)
    requires
        from <= to <= chars@.len(),
    ensures
        same == (lower(chars@.subrange(from as int, to as int)) == lower(other@)),
{
    let ghost piece = chars@.subrange(from as int, to as int);
    if to - from != other.len() {
        assert(lower(piece).len() != lower(other@).len());
        return false;
    }
    let mut i: usize = 0;
    while i < other.len()
        invariant
            from <= to <= chars@.len(),
            to - from == other@.len(),
            i <= other@.len(),
            piece == chars@.subrange(from as int, to as int),
            forall|k: int| 0 <= k < i ==> lower_char(piece[k]) == lower_char(other@[k]),
        decreases other@.len() - i,
    {
        if lowered_char(chars[from + i]) != lowered_char(other[i]) {
            assert(lower(piece)[i as int] != lower(other@)[i as int]);
            return false;
        }
        i += 1;
    }
    assert(lower(piece) =~= lower(other@));
    true
}

// ----- prefixes, searching, trimming ----------------------------------------------------------

/// Whether `text` begins with `prefix`.
pub open spec fn starts_with(text: Seq<char>, prefix: Seq<char>) -> bool {
    prefix.len() <= text.len() && text.take(prefix.len() as int) == prefix
}

/// Whether `chars` holds `piece` from position `at` on.
pub fn holds_at(chars: &Vec<char>, at: usize, piece: &Vec<char>) -> (yes: bool)
    requires
        at <= chars@.len(),
    ensures
        yes == starts_with(chars@.skip(at as int), piece@),
{
    let total: usize = chars.len();
    if piece.len() > total - at {
        return false;
    }
    let mut i: usize = 0;
    while i < piece.len()
        invariant
            i <= piece@.len(),
            at + piece@.len() <= chars@.len(),
            total == chars@.len(),
            forall|k: int| 0 <= k < i ==> chars@[at + k] == piece@[k],
        decreases piece@.len() - i,
    {
        if chars[at + i] != piece[i] {
            assert(chars@.skip(at as int).take(piece@.len() as int)[i as int] != piece@[i as int]);
            return false;
        }
        i += 1;
    }
    assert(chars@.skip(at as int).take(piece@.len() as int) =~= piece@);
    true
}

/// The position of the first `c` in `text`, or its length where there is none.
pub open spec fn find(text: Seq<char>, c: char) -> nat
    decreases text.len(),
{
    if text.len() == 0 || text[0] == c {
        0
    } else {
        1 + find(text.skip(1), c)
    }
}

/// The part of `text` before the first `c`: all of it where there is none.
pub open spec fn before(text: Seq<char>, c: char) -> Seq<char> {
    text.take(find(text, c) as int)
}

/// `find` is the least position that holds `c`.
pub proof fn lemma_find(text: Seq<char>, c: char)
    ensures
        find(text, c) <= text.len(),
        find(text, c) < text.len() ==> text[find(text, c) as int] == c,
        forall|k: int| 0 <= k < find(text, c) ==> text[k] != c,
    decreases text.len(),
{
    if text.len() > 0 && text[0] != c {
        lemma_find(text.skip(1), c);
        assert forall|k: int| 0 <= k < find(text, c) implies text[k] != c by {
            if k > 0 {
                assert(text.skip(1)[k - 1] == text[k]);
            }
        }
    }
}

/// A position that holds `c`, with none before it, is the one that `find` gives.
pub proof fn lemma_find_unique(text: Seq<char>, c: char, at: int)
    requires
        0 <= at <= text.len(),
        at < text.len() ==> text[at] == c,
        forall|k: int| 0 <= k < at ==> text[k] != c,
    ensures
        find(text, c) == at,
{
    lemma_find(text, c);
}

/// The position of the first `c` in `chars` from `from` on, or its length where there is none.
pub fn position_of(chars: &Vec<char>, from: usize, c: char) -> (at: usize)
    requires
        from <= chars@.len(),
    ensures
        at == from + find(chars@.skip(from as int), c),
        from <= at <= chars@.len(),
{
    let ghost rest = chars@.skip(from as int);
    let mut i: usize = from;
    while i < chars.len()
        invariant
            from <= i <= chars@.len(),
            rest == chars@.skip(from as int),
            forall|k: int| 0 <= k < i - from ==> rest[k] != c,
        decreases chars@.len() - i,
    {
        if chars[i] == c {
            proof {
                lemma_find_unique(rest, c, i - from);
            }
            return i;
        }
        i += 1;
    }
    proof {
        lemma_find_unique(rest, c, i - from);
    }
    i
}

/// The pieces of `text` between one `c` and the next: one more than it holds of them.
pub open spec fn pieces(text: Seq<char>, c: char) -> Seq<Seq<char>>
    decreases text.len(),
{
    if find(text, c) < text.len() {
        seq![before(text, c)] + pieces(text.skip(find(text, c) as int + 1), c)
    } else {
        seq![text]
    }
}

/// The position of the last `c` in `text`, if it holds one.
pub open spec fn find_last(text: Seq<char>, c: char) -> Option<nat>
    decreases text.len(),
{
    if text.len() == 0 {
        None
    } else if text.last() == c {
        Some((text.len() - 1) as nat)
    } else {
        find_last(text.drop_last(), c)
    }
}

/// The position of the last `c` in `chars[..to]`, if it holds one.
pub fn last_position_of(chars: &Vec<char>, to: usize, c: char) -> (at: Option<usize>)
    requires
        to <= chars@.len(),
    ensures
        match at {
            Some(at) => at < to && find_last(chars@.take(to as int), c) == Some(at as nat),
            None => find_last(chars@.take(to as int), c) is None,
        },
{
    let mut i: usize = to;
    while i > 0
        invariant
            i <= to <= chars@.len(),
            find_last(chars@.take(i as int), c) == find_last(chars@.take(to as int), c),
        decreases i,
    {
        assert(chars@.take(i as int).drop_last() =~= chars@.take(i - 1));
        if chars[i - 1] == c {
            return Some(i - 1);
        }
        i -= 1;
    }
    None
}

/// `text` without the white space at its start.
pub open spec fn trim_start(text: Seq<char>) -> Seq<char>
    decreases text.len(),
{
    if text.len() > 0 && is_white_space(text[0]) {
        trim_start(text.skip(1))
    } else {
        text
    }
}

/// `text` without the white space at its end.
pub open spec fn trim_end(text: Seq<char>) -> Seq<char>
    decreases text.len(),
{
    if text.len() > 0 && is_white_space(text.last()) {
        trim_end(text.drop_last())
    } else {
        text
    }
}

/// `text` without the white space at either end.
pub open spec fn trim(text: Seq<char>) -> Seq<char> {
    trim_end(trim_start(text))
}

/// Where `chars[from..to]` begins once leading white space is left out.
pub fn start_of_text(chars: &Vec<char>, from: usize, to: usize) -> (start: usize)
    requires
        from <= to <= chars@.len(),
    ensures
        from <= start <= to,
        chars@.subrange(start as int, to as int) == trim_start(
            chars@.subrange(from as int, to as int),
        ),
{
    let mut start: usize = from;
    while start < to && white_space(chars[start])
        invariant
            from <= start <= to <= chars@.len(),
            trim_start(chars@.subrange(start as int, to as int)) == trim_start(
                chars@.subrange(from as int, to as int),
            ),
        decreases to - start,
    {
        assert(chars@.subrange(start as int, to as int).skip(1) =~= chars@.subrange(
            start + 1,
            to as int,
        ));
        start += 1;
    }
    start
}

/// Where `chars[from..to]` ends once trailing white space is left out.
pub fn end_of_text(chars: &Vec<char>, from: usize, to: usize) -> (end: usize)
    requires
        from <= to <= chars@.len(),
    ensures
        from <= end <= to,
        chars@.subrange(from as int, end as int) == trim_end(
            chars@.subrange(from as int, to as int),
        ),
{
    let mut end: usize = to;
    while end > from && white_space(chars[end - 1])
        invariant
            from <= end <= to <= chars@.len(),
            trim_end(chars@.subrange(from as int, end as int)) == trim_end(
                chars@.subrange(from as int, to as int),
            ),
        decreases end,
    {
        assert(chars@.subrange(from as int, end as int).drop_last() =~= chars@.subrange(
            from as int,
            end - 1,
        ));
        end -= 1;
    }
    end
}

/// Trimming leaves nothing exactly where there is nothing but white space.
pub proof fn lemma_trim_empty(text: Seq<char>)
    ensures
        trim(text).len() == 0 <==> forall|i: int| 0 <= i < text.len() ==> is_white_space(text[i]),
{
    lemma_trim_start(text);
    lemma_trim_end(trim_start(text));
    let kept = trim_start(text);
    if kept.len() > 0 {
        assert(!is_white_space(kept[0]));
        assert(text[text.len() - kept.len()] == kept[0]);
    } else {
        assert forall|i: int| 0 <= i < text.len() implies is_white_space(text[i]) by {}
    }
}

/// What `trim_start` keeps is a suffix, all that it drops is white space, and what it keeps does
/// not begin with white space.
pub proof fn lemma_trim_start(text: Seq<char>)
    ensures
        trim_start(text).len() <= text.len(),
        trim_start(text) == text.skip(text.len() - trim_start(text).len()),
        forall|i: int|
            0 <= i < text.len() - trim_start(text).len() ==> is_white_space(#[trigger] text[i]),
        trim_start(text).len() > 0 ==> !is_white_space(trim_start(text)[0]),
    decreases text.len(),
{
    if text.len() > 0 && is_white_space(text[0]) {
        let rest = text.skip(1);
        lemma_trim_start(rest);
        let gone = text.len() - trim_start(text).len();
        assert(text.skip(gone) =~= rest.skip(gone - 1));
        assert forall|i: int| 0 <= i < gone implies is_white_space(#[trigger] text[i]) by {
            if i > 0 {
                assert(rest[i - 1] == text[i]);
            }
        }
    } else {
        assert(text.skip(0) =~= text);
    }
}

/// What `trim_end` keeps is a prefix, all that it drops is white space, and what it keeps does not
/// end with white space.
pub proof fn lemma_trim_end(text: Seq<char>)
    ensures
        trim_end(text).len() <= text.len(),
        trim_end(text) == text.take(trim_end(text).len() as int),
        forall|i: int|
            trim_end(text).len() <= i < text.len() ==> is_white_space(#[trigger] text[i]),
        trim_end(text).len() > 0 ==> !is_white_space(trim_end(text).last()),
    decreases text.len(),
{
    if text.len() > 0 && is_white_space(text.last()) {
        let rest = text.drop_last();
        lemma_trim_end(rest);
        let kept = trim_end(text).len() as int;
        assert(text.take(kept) =~= rest.take(kept));
        assert forall|i: int| kept <= i < text.len() implies is_white_space(#[trigger] text[i]) by {
            if i < text.len() - 1 {
                assert(rest[i] == text[i]);
            }
        }
    } else {
        assert(text.take(text.len() as int) =~= text);
    }
}

// ----- replacing ------------------------------------------------------------------------------

/// `text` with every occurrence of `from` replaced by `to`, found left to right and never
/// overlapping.
pub open spec fn replace(text: Seq<char>, from: Seq<char>, to: Seq<char>) -> Seq<char>
    decreases text.len(),
{
    if from.len() == 0 || text.len() < from.len() {
        text
    } else if starts_with(text, from) {
        to + replace(text.skip(from.len() as int), from, to)
    } else {
        seq![text[0]] + replace(text.skip(1), from, to)
    }
}

/// Whether `piece` occurs anywhere in `text`.
pub open spec fn occurs(text: Seq<char>, piece: Seq<char>) -> bool {
    exists|i: int| 0 <= i <= text.len() && #[trigger] starts_with(text.skip(i), piece)
}

/// A text in which `from` does not occur is left as it is.
pub proof fn lemma_replace_absent(text: Seq<char>, from: Seq<char>, to: Seq<char>)
    requires
        !occurs(text, from),
    ensures
        replace(text, from, to) == text,
    decreases text.len(),
{
    assert(text.skip(0) =~= text);
    assert(!starts_with(text.skip(0), from));
    if from.len() != 0 && text.len() >= from.len() {
        let rest = text.skip(1);
        assert forall|i: int| 0 <= i <= rest.len() implies !(#[trigger] starts_with(
            rest.skip(i),
            from,
        )) by {
            assert(rest.skip(i) =~= text.skip(i + 1));
        }
        lemma_replace_absent(rest, from, to);
        assert(seq![text[0]] + rest =~= text);
    }
}

/// `chars` with every occurrence of the nonempty `from` replaced by `to`.
pub fn replaced(chars: &Vec<char>, from: &Vec<char>, to: &Vec<char>) -> (out: Vec<char>)
    requires
        from@.len() > 0,
    ensures
        out@ == replace(chars@, from@, to@),
{
    let mut out: Vec<char> = Vec::new();
    let mut i: usize = 0;
    assert(chars@.skip(0) =~= chars@);
    while i < chars.len()
        invariant
            i <= chars@.len(),
            from@.len() > 0,
            out@ + replace(chars@.skip(i as int), from@, to@) == replace(chars@, from@, to@),
        decreases chars@.len() - i,
    {
        let ghost rest = chars@.skip(i as int);
        let ghost done = out@;
        if holds_at(chars, i, from) {
            let mut k: usize = 0;
            while k < to.len()
                invariant
                    k <= to@.len(),
                    out@ == done + to@.take(k as int),
                decreases to@.len() - k,
            {
                out.push(to[k]);
                k += 1;
                assert(out@ =~= done + to@.take(k as int));
            }
            proof {
                assert(to@.take(to@.len() as int) =~= to@);
                assert(rest.skip(from@.len() as int) =~= chars@.skip(i + from@.len()));
                let tail = replace(chars@.skip(i + from@.len()), from@, to@);
                assert(done + (to@ + tail) =~= out@ + tail);
            }
            i += from.len();
        } else {
            out.push(chars[i]);
            proof {
                assert(rest.skip(1) =~= chars@.skip(i + 1));
                let tail = replace(chars@.skip(i + 1), from@, to@);
                if rest.len() < from@.len() {
                    assert(tail == chars@.skip(i + 1));
                    assert(done + rest =~= out@ + tail);
                } else {
                    assert(done + (seq![rest[0]] + tail) =~= out@ + tail);
                }
            }
            i += 1;
        }
    }
    assert(chars@.skip(i as int).len() == 0);
    assert(out@ + replace(chars@.skip(i as int), from@, to@) =~= out@);
    out
}

// ----- comparing ------------------------------------------------------------------------------

/// Lexicographic order of byte strings.
pub open spec fn bytes_before(a: Seq<u8>, b: Seq<u8>) -> bool
    decreases a.len(),
{
    if b.len() == 0 {
        false
    } else if a.len() == 0 {
        true
    } else if a[0] != b[0] {
        a[0] < b[0]
    } else {
        bytes_before(a.skip(1), b.skip(1))
    }
}

/// The order of texts: that of the bytes that encode them.
pub open spec fn precedes(a: Seq<char>, b: Seq<char>) -> bool {
    bytes_before(encode_utf8(a), encode_utf8(b))
}

proof fn lemma_bytes_irreflexive(a: Seq<u8>)
    ensures
        !bytes_before(a, a),
    decreases a.len(),
{
    if a.len() > 0 {
        lemma_bytes_irreflexive(a.skip(1));
    }
}

proof fn lemma_bytes_transitive(a: Seq<u8>, b: Seq<u8>, c: Seq<u8>)
    requires
        bytes_before(a, b),
        bytes_before(b, c),
    ensures
        bytes_before(a, c),
    decreases a.len(),
{
    if a.len() > 0 && a[0] == b[0] && b[0] == c[0] {
        lemma_bytes_transitive(a.skip(1), b.skip(1), c.skip(1));
    }
}

/// Two texts with the same encoding are the same text.
pub proof fn lemma_encoding_injective(a: Seq<char>, b: Seq<char>)
    requires
        encode_utf8(a) == encode_utf8(b),
    ensures
        a == b,
{
    encode_utf8_decode_utf8(a);
    encode_utf8_decode_utf8(b);
}

/// No text precedes itself.
pub proof fn lemma_precedes_irreflexive(a: Seq<char>)
    ensures
        !precedes(a, a),
{
    lemma_bytes_irreflexive(encode_utf8(a));
}

/// The order of texts is transitive.
pub proof fn lemma_precedes_transitive(a: Seq<char>, b: Seq<char>, c: Seq<char>)
    requires
        precedes(a, b),
        precedes(b, c),
    ensures
        precedes(a, c),
{
    lemma_bytes_transitive(encode_utf8(a), encode_utf8(b), encode_utf8(c));
}

/// How one text stands to another.
#[derive(Debug, Clone, Copy, PartialEq, Eq, Structural)]
pub enum Place {
    Before,
    Same,
    After,
}

/// Where `a` stands in relation to `b`.
pub fn place(a: &str, b: &str) -> (place: Place)
    ensures
        place == Place::Before <==> precedes(a@, b@),
        place == Place::Same <==> a@ == b@,
        place == Place::After <==> precedes(b@, a@),
{
    let x = a.as_bytes();
    let y = b.as_bytes();
    let mut i: usize = 0;
    proof {
        assert(x@.skip(0) =~= x@);
        assert(y@.skip(0) =~= y@);
        lemma_precedes_irreflexive(a@);
        if precedes(a@, b@) && precedes(b@, a@) {
            lemma_precedes_transitive(a@, b@, a@);
        }
    }
    while i < x.len() && i < y.len()
        invariant
            i <= x@.len(),
            i <= y@.len(),
            x@.take(i as int) == y@.take(i as int),
            bytes_before(x@, y@) == bytes_before(x@.skip(i as int), y@.skip(i as int)),
            bytes_before(y@, x@) == bytes_before(y@.skip(i as int), x@.skip(i as int)),
            x@ == encode_utf8(a@),
            y@ == encode_utf8(b@),
            !precedes(a@, a@),
        decreases x@.len() - i,
    {
        proof {
            assert(x@.skip(i as int).skip(1) =~= x@.skip(i + 1));
            assert(y@.skip(i as int).skip(1) =~= y@.skip(i + 1));
        }
        if x[i] < y[i] {
            return Place::Before;
        }
        if y[i] < x[i] {
            return Place::After;
        }
        proof {
            assert(x@.take(i + 1) =~= x@.take(i as int).push(x@[i as int]));
            assert(y@.take(i + 1) =~= y@.take(i as int).push(y@[i as int]));
        }
        i += 1;
    }
    if x.len() < y.len() {
        Place::Before
    } else if y.len() < x.len() {
        Place::After
    } else {
        proof {
            assert(x@.take(i as int) =~= x@);
            assert(y@.take(i as int) =~= y@);
            lemma_encoding_injective(a@, b@);
        }
        Place::Same
    }
}

/// Whether two texts are the same, character for character.
pub fn same_text(a: &str, b: &str) -> (same: bool)
    ensures
        same == (a@ == b@),
{
    match place(a, b) {
        Place::Same => true,
        _ => false,
    }
}

// ----- bytes ----------------------------------------------------------------------------------

/// `b` with an ASCII capital letter made small.
pub open spec fn lower_byte(b: u8) -> u8 {
    if 65 <= b <= 90 {
        (b + 32) as u8
    } else {
        b
    }
}

pub fn lowered_byte(b: u8) -> (small: u8)
    ensures
        small == lower_byte(b),
{
    if 65 <= b && b <= 90 {
        b + 32
    } else {
        b
    }
}

/// `bytes` with every ASCII capital letter made small.
pub open spec fn lower_bytes(bytes: Seq<u8>) -> Seq<u8> {
    bytes.map_values(|b: u8| lower_byte(b))
}

/// Whether the bytes of two slices are the same once ASCII capitals are made small.
pub fn same_bytes_ignoring_case(a: &[u8], b: &[u8]) -> (same: bool)
    ensures
        same == (lower_bytes(a@) == lower_bytes(b@)),
{
    if a.len() != b.len() {
        assert(lower_bytes(a@).len() != lower_bytes(b@).len());
        return false;
    }
    let mut i: usize = 0;
    while i < a.len()
        invariant
            a@.len() == b@.len(),
            i <= a@.len(),
            forall|k: int| 0 <= k < i ==> lower_byte(a@[k]) == lower_byte(b@[k]),
        decreases a@.len() - i,
    {
        if lowered_byte(a[i]) != lowered_byte(b[i]) {
            assert(lower_bytes(a@)[i as int] != lower_bytes(b@)[i as int]);
            return false;
        }
        i += 1;
    }
    assert(lower_bytes(a@) =~= lower_bytes(b@));
    true
}

/// Whether `needle` occurs in `haystack`, byte for byte, ASCII letters compared without case.
pub open spec fn bytes_occur_ignoring_case(haystack: Seq<u8>, needle: Seq<u8>) -> bool {
    exists|i: int|
        0 <= i <= haystack.len() - needle.len() && lower_bytes(
            #[trigger] haystack.subrange(i, i + needle.len()),
        ) == lower_bytes(needle)
}

/// Whether the nonempty `needle` occurs in `haystack`, ASCII letters compared without case.
pub fn contains_ignore_ascii_case(haystack: &str, needle: &str) -> (found: bool)
    requires
        needle@.len() > 0,
    ensures
        found == bytes_occur_ignoring_case(encode_utf8(haystack@), encode_utf8(needle@)),
{
    let hay = haystack.as_bytes();
    let pin = needle.as_bytes();
    if hay.len() < pin.len() {
        return false;
    }
    let mut i: usize = 0;
    while i <= hay.len() - pin.len()
        invariant
            pin@.len() <= hay@.len(),
            i <= hay@.len() - pin@.len() + 1,
            hay@ == encode_utf8(haystack@),
            pin@ == encode_utf8(needle@),
            forall|k: int|
                0 <= k < i ==> lower_bytes(#[trigger] hay@.subrange(k, k + pin@.len()))
                    != lower_bytes(pin@),
        decreases hay@.len() - pin@.len() + 1 - i,
    {
        if same_bytes_ignoring_case(slice_subrange(hay, i, i + pin.len()), pin) {
            return true;
        }
        if i == hay.len() - pin.len() {
            return false;
        }
        i += 1;
    }
    false
}

// ----- what the text functions promise --------------------------------------------------------

/// White space is what Unicode says: six characters of ASCII, the tab to the carriage return and
/// the space, and these few beyond it. No letter, digit or mark is any.
pub proof fn law_white_space(c: char)
    ensures
        c as u32 <= 0x7f ==> (is_white_space(c) <==> c as u32 == 32 || 9 <= c as u32 <= 13),
        c as u32 > 0x7f ==> (is_white_space(c) <==> c as u32 == 0x85 || c as u32 == 0xa0 || c as u32
            == 0x1680 || 0x2000 <= c as u32 <= 0x200a || c as u32 == 0x2028 || c as u32 == 0x2029
            || c as u32 == 0x202f || c as u32 == 0x205f || c as u32 == 0x3000),
{
}

/// Whether two characters are the same, or the capital and the small form of one ASCII letter.
pub open spec fn same_letter(a: char, b: char) -> bool {
    ||| a == b
    ||| 'A' <= a <= 'Z' && b as u32 == a as u32 + 32
    ||| 'A' <= b <= 'Z' && a as u32 == b as u32 + 32
}

/// Whether two texts are the same but for the case of ASCII letters, position by position.
pub open spec fn same_letters(a: Seq<char>, b: Seq<char>) -> bool {
    a.len() == b.len() && forall|i: int| 0 <= i < a.len() ==> same_letter(#[trigger] a[i], b[i])
}

/// Making ASCII capitals small changes each of them into its small form, and nothing else.
pub proof fn law_lower_is_letter_by_letter(text: Seq<char>)
    ensures
        lower(text).len() == text.len(),
        forall|i: int|
            0 <= i < text.len() ==> same_letter(text[i], #[trigger] lower(text)[i]) && !('A'
                <= lower(text)[i] <= 'Z'),
{
    broadcast use vstd::utf8::char_u32_cast;

    assert forall|i: int| 0 <= i < text.len() implies same_letter(
        text[i],
        #[trigger] lower(text)[i],
    ) && !('A' <= lower(text)[i] <= 'Z') by {
        assert(lower(text)[i] == lower_char(text[i]));
    }
}

/// Two texts agree once their capitals are made small exactly where they agree but for case.
pub proof fn law_lower_compares_letters(a: Seq<char>, b: Seq<char>)
    ensures
        lower(a) == lower(b) <==> same_letters(a, b),
{
    law_lower_is_letter_by_letter(a);
    law_lower_is_letter_by_letter(b);
    if lower(a) == lower(b) {
        assert forall|i: int| 0 <= i < a.len() implies same_letter(#[trigger] a[i], b[i]) by {
            assert(lower(a)[i] == lower(b)[i]);
            assert(same_letter(a[i], lower(a)[i]));
            assert(same_letter(b[i], lower(b)[i]));
        }
    }
    if same_letters(a, b) {
        assert forall|i: int| 0 <= i < a.len() implies lower(a)[i] == lower(b)[i] by {
            assert(same_letter(a[i], b[i]));
            assert(lower(a)[i] == lower_char(a[i]));
            assert(lower(b)[i] == lower_char(b[i]));
        }
        assert(lower(a) =~= lower(b));
    }
}

/// A text begins with another exactly where it is that one with something, or nothing, behind it.
pub proof fn law_starts_with(text: Seq<char>, prefix: Seq<char>)
    ensures
        starts_with(text, prefix) <==> exists|rest: Seq<char>| text == #[trigger] (prefix + rest),
{
    if starts_with(text, prefix) {
        let rest = text.skip(prefix.len() as int);
        assert(text =~= prefix + rest);
    }
    if exists|rest: Seq<char>| text == #[trigger] (prefix + rest) {
        let rest = choose|rest: Seq<char>| text == #[trigger] (prefix + rest);
        assert(text.take(prefix.len() as int) =~= prefix);
    }
}

/// What stands before the first `c` is all that comes before it, however long, and the whole text
/// where it has none.
pub proof fn law_before(head: Seq<char>, c: char, tail: Seq<char>)
    requires
        !head.contains(c),
    ensures
        before(head, c) == head,
        before(head + seq![c] + tail, c) == head,
{
    assert forall|k: int| 0 <= k < head.len() implies head[k] != c by {
        assert(head.contains(head[k]));
    }
    lemma_find_unique(head, c, head.len() as int);
    lemma_find_unique(head + seq![c] + tail, c, head.len() as int);
    assert(before(head, c) =~= head);
    assert(before(head + seq![c] + tail, c) =~= head);
}

/// Whether there is nothing but white space in a text.
pub open spec fn is_blank(text: Seq<char>) -> bool {
    forall|i: int| 0 <= i < text.len() ==> is_white_space(#[trigger] text[i])
}

/// Whether a text neither begins nor ends with white space.
pub open spec fn is_trimmed(text: Seq<char>) -> bool {
    text.len() > 0 ==> !is_white_space(text[0]) && !is_white_space(text.last())
}

/// Trimming takes away the white space at the ends, however much, and leaves the rest as it is.
pub proof fn law_trim(left: Seq<char>, core: Seq<char>, right: Seq<char>)
    requires
        is_blank(left),
        is_blank(right),
        is_trimmed(core),
    ensures
        trim(left + core + right) == core,
        core.len() > 0 ==> trim_start(left + core + right) == core + right,
{
    let text = left + core + right;
    lemma_trim_start(text);
    let kept = trim_start(text);
    let gone = text.len() - kept.len();
    lemma_trim_end(kept);
    if core.len() == 0 {
        assert forall|i: int| 0 <= i < text.len() implies is_white_space(text[i]) by {
            if i < left.len() {
                assert(text[i] == left[i]);
            } else {
                assert(text[i] == right[i - left.len()]);
            }
        }
        lemma_trim_empty(text);
        assert(trim(text) =~= core);
    } else {
        if gone < left.len() {
            assert(kept[0] == text[gone]);
            assert(text[gone] == left[gone]);
        }
        assert(text[left.len() as int] == core[0]);
        assert(gone == left.len());
        assert(kept =~= core + right);
        let end = trim(text).len() as int;
        if end > core.len() {
            assert(trim(text).last() == kept[end - 1]);
            assert(kept[end - 1] == right[end - 1 - core.len()]);
        }
        if end < core.len() {
            assert(kept[core.len() - 1] == core.last());
        }
        assert(trim(text) =~= core);
    }
}

/// Replacing goes from left to right: where the first occurrence has `head` before it, `head` stays
/// as it is, the replacement follows, and the rest is treated alike.
pub proof fn law_replace_first(
    head: Seq<char>,
    from: Seq<char>,
    tail: Seq<char>,
    to: Seq<char>,
)
    requires
        from.len() > 0,
        forall|i: int|
            0 <= i < head.len() ==> #[trigger] (head + from + tail).subrange(i, i + from.len())
                != from,
    ensures
        replace(head + from + tail, from, to) == head + to + replace(tail, from, to),
    decreases head.len(),
{
    let text = head + from + tail;
    if head.len() == 0 {
        assert(text.take(from.len() as int) =~= from);
        assert(text.skip(from.len() as int) =~= tail);
        assert(replace(text, from, to) =~= head + to + replace(tail, from, to));
    } else {
        let none: int = 0;
        assert(text.subrange(none, none + from.len()) != from);
        assert(text.take(from.len() as int) =~= text.subrange(none, none + from.len()));
        let rest = head.skip(1);
        assert(text.skip(1) =~= rest + from + tail);
        assert forall|i: int| 0 <= i < rest.len() implies #[trigger] (rest + from
            + tail).subrange(i, i + from.len()) != from by {
            assert((rest + from + tail).subrange(i, i + from.len()) =~= text.subrange(
                i + 1,
                i + 1 + from.len(),
            ));
        }
        law_replace_first(rest, from, tail, to);
        assert(replace(text, from, to) =~= head + to + replace(tail, from, to));
    }
}

/// Byte strings are ordered by the first byte in which they differ, however far in it stands, and
/// one that the other continues comes first.
pub proof fn law_bytes_are_ordered_by_the_first_difference(
    common: Seq<u8>,
    a: u8,
    more: Seq<u8>,
    b: u8,
    other: Seq<u8>,
)
    ensures
        bytes_before(common + seq![a] + more, common + seq![b] + other) <==> a < b || (a == b
            && bytes_before(more, other)),
        bytes_before(common, common + seq![b] + other),
        !bytes_before(common + seq![b] + other, common),
    decreases common.len(),
{
    let x = common + seq![a] + more;
    let y = common + seq![b] + other;
    if common.len() == 0 {
        assert(x.skip(1) =~= more);
        assert(y.skip(1) =~= other);
    } else {
        let rest = common.skip(1);
        assert(x.skip(1) =~= rest + seq![a] + more);
        assert(y.skip(1) =~= rest + seq![b] + other);
        law_bytes_are_ordered_by_the_first_difference(rest, a, more, b, other);
    }
}

/// Whether two bytes are the same, or the capital and the small form of one ASCII letter.
pub open spec fn same_letter_byte(a: u8, b: u8) -> bool {
    ||| a == b
    ||| 65 <= a <= 90 && b == a + 32
    ||| 65 <= b <= 90 && a == b + 32
}

/// Whether two byte strings are the same but for the case of ASCII letters.
pub open spec fn same_letter_bytes(a: Seq<u8>, b: Seq<u8>) -> bool {
    a.len() == b.len() && forall|i: int|
        0 <= i < a.len() ==> same_letter_byte(#[trigger] a[i], b[i])
}

/// A piece occurs in a byte string exactly where the string can be cut in three, with a middle part
/// that is the piece but for the case of ASCII letters, whatever the lengths.
pub proof fn law_occurrence_is_a_middle_part(haystack: Seq<u8>, needle: Seq<u8>)
    ensures
        bytes_occur_ignoring_case(haystack, needle) <==> exists|
            head: Seq<u8>,
            part: Seq<u8>,
            tail: Seq<u8>,
        |
            haystack == #[trigger] (head + part + tail) && same_letter_bytes(part, needle),
{
    let n = needle.len() as int;
    if bytes_occur_ignoring_case(haystack, needle) {
        let at = choose|i: int|
            0 <= i <= haystack.len() - needle.len() && lower_bytes(
                #[trigger] haystack.subrange(i, i + needle.len()),
            ) == lower_bytes(needle);
        let part = haystack.subrange(at, at + n);
        assert(haystack =~= haystack.take(at) + part + haystack.skip(at + n));
        assert forall|k: int| 0 <= k < n implies same_letter_byte(
            #[trigger] part[k],
            needle[k],
        ) by {
            assert(lower_bytes(part)[k] == lower_bytes(needle)[k]);
        }
    }
    assert forall|head: Seq<u8>, part: Seq<u8>, tail: Seq<u8>|
        haystack == #[trigger] (head + part + tail) && same_letter_bytes(
            part,
            needle,
        ) implies bytes_occur_ignoring_case(haystack, needle) by {
        let at = head.len() as int;
        assert(haystack.subrange(at, at + n) =~= part);
        assert(lower_bytes(part) =~= lower_bytes(needle));
    }
}

/// The encoding of two texts, one behind the other, is that of the first with that of the second
/// behind it.
pub proof fn lemma_encoding_concatenates(a: Seq<char>, b: Seq<char>)
    ensures
        encode_utf8(a + b) == encode_utf8(a) + encode_utf8(b),
    decreases a.len(),
{
    if a.len() == 0 {
        assert(a + b =~= b);
        assert(encode_utf8(a) + encode_utf8(b) =~= encode_utf8(b));
    } else {
        assert((a + b).drop_first() =~= a.drop_first() + b);
        lemma_encoding_concatenates(a.drop_first(), b);
        assert(encode_utf8(a + b) =~= encode_utf8(a) + encode_utf8(b));
    }
}

/// Cutting at `c` gives the piece before the first one, however long, and then the pieces of the
/// rest; a text without any is one piece.
pub proof fn law_pieces(head: Seq<char>, c: char, tail: Seq<char>)
    requires
        !head.contains(c),
    ensures
        pieces(head, c) == seq![head],
        pieces(head + seq![c] + tail, c) == seq![head] + pieces(tail, c),
{
    law_before(head, c, tail);
    assert forall|k: int| 0 <= k < head.len() implies head[k] != c by {
        assert(head.contains(head[k]));
    }
    let text = head + seq![c] + tail;
    lemma_find_unique(head, c, head.len() as int);
    lemma_find_unique(text, c, head.len() as int);
    assert(text.skip(head.len() as int + 1) =~= tail);
}

/// The last `c` is the one with none behind it.
pub proof fn law_find_last(head: Seq<char>, c: char, tail: Seq<char>)
    requires
        !tail.contains(c),
    ensures
        find_last(tail, c) is None,
        find_last(head + seq![c] + tail, c) == Some(head.len()),
    decreases tail.len(),
{
    let text = head + seq![c] + tail;
    if tail.len() > 0 {
        assert(tail.contains(tail.last()));
        let less = tail.drop_last();
        assert forall|x: char| less.contains(x) implies tail.contains(x) by {
            let i = choose|i: int| 0 <= i < less.len() && less[i] == x;
            assert(tail[i] == x);
        }
        law_find_last(head, c, less);
        assert(text.drop_last() =~= head + seq![c] + less);
    }
}


proof fn lemma_only_ascii_has_ascii_bytes(scalar: u32, at: int)
    requires
        0 <= at < encode_scalar(scalar).len(),
        encode_scalar(scalar)[at] < 0x80,
    ensures
        scalar < 0x80,
        encode_scalar(scalar)[at] as u32 == scalar,
{
    if scalar >= 0x80 {
        assert(0xC0u8 | ((scalar >> 6) & 0x1F) as u8 >= 0x80) by (bit_vector);
        assert(0xE0u8 | ((scalar >> 12) & 0x0F) as u8 >= 0x80) by (bit_vector);
        assert(0xF0u8 | ((scalar >> 18) & 0x7) as u8 >= 0x80) by (bit_vector);
        assert(0x80u8 | (scalar & 0x3F) as u8 >= 0x80) by (bit_vector);
        assert(0x80u8 | ((scalar >> 6) & 0x3F) as u8 >= 0x80) by (bit_vector);
        assert(0x80u8 | ((scalar >> 12) & 0x3F) as u8 >= 0x80) by (bit_vector);
    } else {
        assert((scalar & 0x7F) as u8 as u32 == scalar) by (bit_vector)
            requires
                scalar < 0x80,
        ;
    }
}

/// A byte of ASCII in the encoding of a text is one of its characters.
pub proof fn lemma_ascii_bytes_are_characters(text: Seq<char>, at: int)
    requires
        0 <= at < encode_utf8(text).len(),
        encode_utf8(text)[at] < 0x80,
    ensures
        exists|i: int|
            0 <= i < text.len() && (#[trigger] text[i]) as u32 == encode_utf8(text)[at] as u32,
    decreases text.len(),
{
    let first = encode_scalar(text[0] as u32);
    if at < first.len() {
        lemma_only_ascii_has_ascii_bytes(text[0] as u32, at);
    } else {
        let rest = text.drop_first();
        lemma_ascii_bytes_are_characters(rest, at - first.len());
        let i = choose|i: int|
            0 <= i < rest.len() && (#[trigger] rest[i]) as u32 == encode_utf8(
                rest,
            )[at - first.len()] as u32;
        assert(text[i + 1] == rest[i]);
    }
}


/// Texts are ordered as the bytes that encode them are.
pub proof fn law_texts_are_ordered_by_bytes(a: Seq<char>, b: Seq<char>)
    ensures
        precedes(a, b) <==> bytes_before(encode_utf8(a), encode_utf8(b)),
{
}


proof fn lemma_bytes_total(a: Seq<u8>, b: Seq<u8>)
    requires
        a != b,
    ensures
        bytes_before(a, b) || bytes_before(b, a),
    decreases a.len(),
{
    if a.len() == 0 || b.len() == 0 {
        if a.len() == 0 && b.len() == 0 {
            assert(a =~= b);
        }
    } else if a[0] == b[0] {
        if a.skip(1) == b.skip(1) {
            assert(a =~= seq![a[0]] + a.skip(1));
            assert(b =~= seq![b[0]] + b.skip(1));
        }
        lemma_bytes_total(a.skip(1), b.skip(1));
    }
}

/// Of two different texts one precedes the other.
pub proof fn lemma_precedes_total(a: Seq<char>, b: Seq<char>)
    requires
        a != b,
    ensures
        precedes(a, b) || precedes(b, a),
{
    if encode_utf8(a) == encode_utf8(b) {
        lemma_encoding_injective(a, b);
    }
    lemma_bytes_total(encode_utf8(a), encode_utf8(b));
}

} // verus!
