//! Command globs: `*` stands for any run of bytes, `?` for one byte, every other byte for itself.
use vstd::prelude::*;
use vstd::slice::slice_subrange;
use vstd::utf8::encode_utf8;

verus! {

/// The byte `*`.
pub const STAR: u8 = 42;

/// The byte `?`.
pub const ANY: u8 = 63;

/// Whether `pat`, read as a glob, matches all of `text`.
pub open spec fn glob_matches(pat: Seq<u8>, text: Seq<u8>) -> bool
    decreases pat.len(), text.len(),
{
    if pat.len() == 0 {
        text.len() == 0
    } else if pat[0] == STAR {
        glob_matches(pat.skip(1), text) || (text.len() > 0 && glob_matches(pat, text.skip(1)))
    } else if pat[0] == ANY {
        text.len() > 0 && glob_matches(pat.skip(1), text.skip(1))
    } else {
        text.len() > 0 && text[0] == pat[0] && glob_matches(pat.skip(1), text.skip(1))
    }
}

/// Whether the glob `pat` matches `text`, byte for byte: `*` takes any sequence, `/` and spaces
/// too, `?` takes one byte, and the empty pattern matches only the empty text.
pub fn glob_match(pat: &str, text: &str) -> (yes: bool)
    ensures
        yes == glob_matches(encode_utf8(pat@), encode_utf8(text@)),
{
    glob_rec(pat.as_bytes(), text.as_bytes())
}

/// The matcher on bytes.
pub fn glob_rec(pat: &[u8], text: &[u8]) -> (yes: bool)
    ensures
        yes == glob_matches(pat@, text@),
    decreases pat@.len(),
{
    let mut i: usize = 0;
    let mut j: usize = 0;
    assert(pat@.skip(0) =~= pat@);
    assert(text@.skip(0) =~= text@);
    while i < pat.len()
        invariant
            i <= pat@.len(),
            j <= text@.len(),
            glob_matches(pat@, text@) == glob_matches(pat@.skip(i as int), text@.skip(j as int)),
        decreases pat@.len() - i,
    {
        let c: u8 = pat[i];
        assert(pat@.skip(i as int).skip(1) =~= pat@.skip(i + 1));
        if c == STAR {
            i += 1;
            while i < pat.len() && pat[i] == STAR
                invariant
                    0 < i <= pat@.len(),
                    j <= text@.len(),
                    pat@[i - 1] == STAR,
                    glob_matches(pat@, text@) == glob_matches(pat@.skip(i - 1), text@.skip(j as int)),
                decreases pat@.len() - i,
            {
                proof {
                    assert(pat@.skip(i - 1) =~= seq![STAR, STAR] + pat@.skip(i + 1));
                    assert(pat@.skip(i as int) =~= seq![STAR] + pat@.skip(i + 1));
                    law_stars_collapse(pat@.skip(i + 1), text@.skip(j as int));
                }
                i += 1;
            }
            let ghost rest = pat@.skip(i as int);
            let ghost tail = text@.skip(j as int);
            let ghost start = j;
            proof {
                assert(pat@.skip(i - 1).skip(1) =~= rest);
                law_star(pat@.skip(i - 1), tail);
            }
            if i == pat.len() {
                assert(tail.skip(tail.len() as int).len() == 0);
                assert(glob_matches(rest, tail.skip(tail.len() as int)));
                return true;
            }
            while j <= text.len()
                invariant
                    0 < i < pat@.len(),
                    start <= j <= text@.len(),
                    rest == pat@.skip(i as int),
                    tail == text@.skip(start as int),
                    glob_matches(pat@, text@) == (exists|k: int|
                        0 <= k <= tail.len() && #[trigger] glob_matches(rest, tail.skip(k))),
                    forall|k: int| 0 <= k < j - start ==> !(#[trigger] glob_matches(rest, tail.skip(k))),
                decreases text@.len() - j,
            {
                assert(tail.skip(j - start) =~= text@.skip(j as int));
                if glob_rec(
                    slice_subrange(pat, i, pat.len()),
                    slice_subrange(text, j, text.len()),
                ) {
                    assert(glob_matches(rest, tail.skip(j - start)));
                    return true;
                }
                if j == text.len() {
                    return false;
                }
                j += 1;
            }
            return false;
        }
        if j >= text.len() {
            return false;
        }
        if c != ANY && text[j] != c {
            return false;
        }
        assert(text@.skip(j as int).skip(1) =~= text@.skip(j + 1));
        i += 1;
        j += 1;
    }
    j == text.len()
}

// ----- what globs promise -------------------------------------------------------------------

/// A star takes any run of bytes at the start of the text and leaves the rest to what follows it.
pub proof fn law_star(pat: Seq<u8>, text: Seq<u8>)
    requires
        pat.len() > 0,
        pat[0] == STAR,
    ensures
        glob_matches(pat, text) <==> exists|k: int|
            0 <= k <= text.len() && #[trigger] glob_matches(pat.skip(1), text.skip(k)),
    decreases text.len(),
{
    assert(text.skip(0) =~= text);
    if text.len() > 0 {
        let rest = text.skip(1);
        law_star(pat, rest);
        if glob_matches(pat, rest) {
            let k = choose|k: int| 0 <= k <= rest.len() && #[trigger] glob_matches(pat.skip(1), rest.skip(k));
            assert(rest.skip(k) =~= text.skip(k + 1));
            assert(glob_matches(pat.skip(1), text.skip(k + 1)));
        }
        assert forall|k: int|
            0 <= k <= text.len() && #[trigger] glob_matches(pat.skip(1), text.skip(k)) implies glob_matches(
            pat,
            text,
        ) by {
            if k > 0 {
                assert(rest.skip(k - 1) =~= text.skip(k));
                assert(glob_matches(pat.skip(1), rest.skip(k - 1)));
            }
        }
    }
    if glob_matches(pat.skip(1), text) {
        assert(glob_matches(pat.skip(1), text.skip(0)));
    }
}

/// Consecutive stars collapse: two match what one matches.
pub proof fn law_stars_collapse(pat: Seq<u8>, text: Seq<u8>)
    ensures
        glob_matches(seq![STAR, STAR] + pat, text) == glob_matches(seq![STAR] + pat, text),
{
    let one = seq![STAR] + pat;
    let two = seq![STAR, STAR] + pat;
    assert(two.skip(1) =~= one);
    assert(one.skip(1) =~= pat);
    law_star(two, text);
    law_star(one, text);
    if glob_matches(two, text) {
        let k = choose|k: int| 0 <= k <= text.len() && #[trigger] glob_matches(one, text.skip(k));
        let rest = text.skip(k);
        law_star(one, rest);
        let m = choose|m: int| 0 <= m <= rest.len() && #[trigger] glob_matches(pat, rest.skip(m));
        assert(rest.skip(m) =~= text.skip(k + m));
        assert(glob_matches(pat, text.skip(k + m)));
    }
    if glob_matches(one, text) {
        assert(text.skip(0) =~= text);
        assert(glob_matches(one, text.skip(0)));
    }
}

/// The pattern `*` matches every text.
pub proof fn law_star_matches_everything(text: Seq<u8>)
    ensures
        glob_matches(seq![STAR], text),
{
    assert(text.skip(text.len() as int).len() == 0);
    assert(glob_matches(seq![STAR].skip(1), text.skip(text.len() as int)));
    law_star(seq![STAR], text);
}

/// The empty pattern matches the empty text and no other.
pub proof fn law_empty_pattern(text: Seq<u8>)
    ensures
        glob_matches(seq![], text) <==> text.len() == 0,
{
}

/// A pattern without `*` and `?` matches itself and nothing else.
pub proof fn law_literal_pattern(pat: Seq<u8>, text: Seq<u8>)
    requires
        forall|i: int| 0 <= i < pat.len() ==> pat[i] != STAR && pat[i] != ANY,
    ensures
        glob_matches(pat, text) <==> text == pat,
    decreases pat.len(),
{
    if pat.len() == 0 {
        assert(text.len() == 0 ==> text =~= pat);
    } else if text.len() > 0 {
        law_literal_pattern(pat.skip(1), text.skip(1));
        assert(pat =~= seq![pat[0]] + pat.skip(1));
        assert(text =~= seq![text[0]] + text.skip(1));
    }
}

/// A pattern written as one after another matches exactly the texts that can be cut in two, the
/// first part for the first pattern and the second for the second.
pub proof fn law_concatenation(first: Seq<u8>, second: Seq<u8>, text: Seq<u8>)
    ensures
        glob_matches(first + second, text) <==> exists|cut: int|
            0 <= cut <= text.len() && #[trigger] glob_matches(first, text.take(cut)) && glob_matches(
                second,
                text.skip(cut),
            ),
    decreases first.len(),
{
    let pat = first + second;
    if first.len() == 0 {
        assert(pat =~= second);
        assert(text.skip(0) =~= text);
        assert(glob_matches(first, text.take(0)));
    } else {
        assert(pat.skip(1) =~= first.skip(1) + second);
        if first[0] == STAR {
            law_star(pat, text);
            assert forall|k: int| 0 <= k <= text.len() && #[trigger] glob_matches(
                pat.skip(1),
                text.skip(k),
            ) implies exists|cut: int|
                0 <= cut <= text.len() && #[trigger] glob_matches(first, text.take(cut)) && glob_matches(
                    second,
                    text.skip(cut),
                ) by {
                let rest = text.skip(k);
                law_concatenation(first.skip(1), second, rest);
                let m = choose|m: int|
                    0 <= m <= rest.len() && #[trigger] glob_matches(first.skip(1), rest.take(m))
                        && glob_matches(second, rest.skip(m));
                assert(text.take(k + m).skip(k) =~= rest.take(m));
                assert(rest.skip(m) =~= text.skip(k + m));
                assert(glob_matches(first.skip(1), text.take(k + m).skip(k)));
                law_star(first, text.take(k + m));
                assert(glob_matches(first, text.take(k + m)));
            }
            assert forall|cut: int|
                0 <= cut <= text.len() && #[trigger] glob_matches(first, text.take(cut)) && glob_matches(
                    second,
                    text.skip(cut),
                ) implies glob_matches(pat, text) by {
                let head = text.take(cut);
                law_star(first, head);
                let k = choose|k: int|
                    0 <= k <= head.len() && #[trigger] glob_matches(first.skip(1), head.skip(k));
                let rest = text.skip(k);
                assert(rest.take(cut - k) =~= head.skip(k));
                assert(rest.skip(cut - k) =~= text.skip(cut));
                law_concatenation(first.skip(1), second, rest);
                assert(glob_matches(first.skip(1), rest.take(cut - k)));
                assert(glob_matches(pat.skip(1), text.skip(k)));
            }
        } else {
            let rest = text.skip(1);
            if text.len() > 0 {
                law_concatenation(first.skip(1), second, rest);
                assert forall|m: int|
                    0 <= m <= rest.len() && #[trigger] glob_matches(first.skip(1), rest.take(m))
                        && glob_matches(second, rest.skip(m)) && (first[0] == ANY || first[0] == text[0])
                    implies exists|cut: int|
                    0 <= cut <= text.len() && #[trigger] glob_matches(first, text.take(cut)) && glob_matches(
                        second,
                        text.skip(cut),
                    ) by {
                    assert(text.take(m + 1).skip(1) =~= rest.take(m));
                    assert(rest.skip(m) =~= text.skip(m + 1));
                    assert(glob_matches(first, text.take(m + 1)));
                }
                assert forall|cut: int|
                    0 <= cut <= text.len() && #[trigger] glob_matches(first, text.take(cut)) && glob_matches(
                        second,
                        text.skip(cut),
                    ) implies glob_matches(pat, text) by {
                    assert(text.take(cut).skip(1) =~= rest.take(cut - 1));
                    assert(rest.skip(cut - 1) =~= text.skip(cut));
                    assert(glob_matches(first.skip(1), rest.take(cut - 1)));
                }
            }
        }
    }
}

/// One character of a pattern, whichever it is: `*` matches every text, `?` every text of one byte,
/// and any other byte the text that is that byte and no more. With what is said of patterns
/// written one after another, this settles every pattern.
pub proof fn law_one_byte_pattern(b: u8, text: Seq<u8>)
    ensures
        b == 0x2a ==> glob_matches(seq![b], text),
        b == 0x3f ==> (glob_matches(seq![b], text) <==> text.len() == 1),
        b != 0x2a && b != 0x3f ==> (glob_matches(seq![b], text) <==> text == seq![b]),
{
    assert(seq![b].skip(1) =~= Seq::<u8>::empty());
    if b == 0x2a {
        law_star_matches_everything(text);
    } else if b == 0x3f {
        if text.len() > 0 {
            assert(glob_matches(seq![b].skip(1), text.skip(1)) <==> text.skip(1).len() == 0);
        }
    } else {
        law_literal_pattern(seq![b], text);
    }
}

/// A pattern that ends in `*`, with no other wildcard, matches exactly the texts that begin with
/// what stands before it.
pub proof fn law_prefix_pattern(prefix: Seq<u8>, text: Seq<u8>)
    requires
        forall|i: int| 0 <= i < prefix.len() ==> prefix[i] != 0x2a && prefix[i] != 0x3f,
    ensures
        glob_matches(prefix + seq![0x2au8], text) <==> exists|rest: Seq<u8>|
            text == #[trigger] (prefix + rest),
{
    let star = seq![0x2au8];
    law_concatenation(prefix, star, text);
    if glob_matches(prefix + star, text) {
        let cut = choose|cut: int|
            0 <= cut <= text.len() && #[trigger] glob_matches(prefix, text.take(cut))
                && glob_matches(star, text.skip(cut));
        law_literal_pattern(prefix, text.take(cut));
        assert(text =~= prefix + text.skip(cut));
    }
    if exists|rest: Seq<u8>| text == #[trigger] (prefix + rest) {
        let rest = choose|rest: Seq<u8>| text == #[trigger] (prefix + rest);
        let cut = prefix.len() as int;
        assert(text.take(cut) =~= prefix);
        law_literal_pattern(prefix, text.take(cut));
        law_star_matches_everything(text.skip(cut));
        assert(glob_matches(prefix, text.take(cut)));
    }
}

} // verus!
