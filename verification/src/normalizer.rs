//! Text normalization and tokenization: the atomic unit of matching is a
//! token, a normalized (decomposed, diacritic-stripped, lowercased) text
//! fragment. Both the inverted index and the relationship graph compare
//! text only through tokens produced here.

use unicode_normalization::UnicodeNormalization;
use vstd::prelude::*;

verus! {

/// The normalized form of a character sequence: Unicode compatibility
/// decomposition, combining marks removed, the rest lowercased. The result
/// depends on the characters alone.
pub uninterp spec fn norm_of(s: Seq<char>) -> Seq<char>;

/// Whether a character counts as alphanumeric when splitting text into
/// fragments.
pub uninterp spec fn is_alnum(c: char) -> bool;

/// Relies on `unicode_normalization`'s `nfkd` iterator and
/// `is_combining_mark`, and on `str::to_lowercase`: compatibility-decompose,
/// drop combining marks, lowercase. The result is a function of the input
/// characters alone (no locale), and an empty input gives an empty result.
#[verifier::external_body]
pub fn normalize_token(s: &str) -> (r: String)
    ensures
        r@ == norm_of(s@),
        s@.len() == 0 ==> r@.len() == 0,
{
    s.nfkd()
        .filter(|c| !unicode_normalization::char::is_combining_mark(*c))
        .collect::<String>()
        .to_lowercase()
}

/// Relies on `char::is_alphanumeric`: whether the character is Unicode
/// alphabetic or numeric; a function of the character alone.
#[verifier::external_body]
fn char_alnum(c: char) -> (r: bool)
    ensures
        r == is_alnum(c),
{
    c.is_alphanumeric()
}

/// The normalized forms of a tag list, in order.
pub open spec fn norm_tags(tags: Seq<Seq<char>>) -> Seq<Seq<char>> {
    tags.map_values(|t: Seq<char>| norm_of(t))
}

/// The maximal runs of alphanumeric characters of `s` from position `i`
/// onward, `cur` being the run in progress just before position `i`.
pub open spec fn frags_from(s: Seq<char>, i: int, cur: Seq<char>) -> Seq<Seq<char>>
    decreases s.len() - i,
{
    if i < 0 || i >= s.len() {
        if cur.len() > 0 {
            seq![cur]
        } else {
            Seq::empty()
        }
    } else if is_alnum(s[i]) {
        frags_from(s, i + 1, cur.push(s[i]))
    } else if cur.len() > 0 {
        seq![cur] + frags_from(s, i + 1, Seq::empty())
    } else {
        frags_from(s, i + 1, Seq::empty())
    }
}

/// The maximal nonempty runs of alphanumeric characters of `s`, in order.
pub open spec fn spec_fragments(s: Seq<char>) -> Seq<Seq<char>> {
    frags_from(s, 0, Seq::empty())
}

/// The token a fragment contributes: its normalized form, or nothing when
/// normalization leaves the fragment empty.
pub open spec fn emit_token(f: Seq<char>) -> Seq<Seq<char>> {
    if norm_of(f).len() > 0 {
        seq![norm_of(f)]
    } else {
        Seq::empty()
    }
}

/// Normalize each fragment and drop the ones that normalize to nothing.
pub open spec fn norm_filter(frags: Seq<Seq<char>>) -> Seq<Seq<char>>
    decreases frags.len(),
{
    if frags.len() == 0 {
        Seq::empty()
    } else {
        emit_token(frags[0]) + norm_filter(frags.drop_first())
    }
}

/// The tokens of a text: each maximal alphanumeric run, normalized, with
/// runs that normalize to nothing dropped.
pub open spec fn spec_tokenize(s: Seq<char>) -> Seq<Seq<char>> {
    norm_filter(spec_fragments(s))
}

proof fn lemma_norm_filter_cons(f: Seq<char>, rest: Seq<Seq<char>>)
    ensures
        norm_filter(seq![f] + rest) == emit_token(f) + norm_filter(rest),
{
    let s = seq![f] + rest;
    assert(s[0] == f);
    assert(s.drop_first() =~= rest);
}

/// Split `text` into maximal alphanumeric runs, normalize each run, and
/// drop runs that normalize to nothing; the surviving tokens come out in
/// the order their runs occur in `text`.
pub fn tokenize(input: &str) -> (r: Vec<String>)
    ensures
        r@.map_values(|t: String| t@) == spec_tokenize(input@),
{
    let ghost s = input@;
    let n: usize = input.unicode_len();
    let mut out: Vec<String> = Vec::new();
    let mut start: usize = 0;
    let mut i: usize = 0;
    proof {
        assert(s.subrange(0, 0) =~= Seq::<char>::empty());
        assert(out@.map_values(|t: String| t@) =~= Seq::<Seq<char>>::empty());
        assert(Seq::<Seq<char>>::empty() + norm_filter(frags_from(s, 0, s.subrange(0, 0)))
            =~= norm_filter(frags_from(s, 0, s.subrange(0, 0))));
    }
    while i < n
        invariant
            start <= i <= n,
            n == s.len(),
            s == input@,
            forall|j: int| start <= j < i ==> is_alnum(s[j]),
            spec_tokenize(s) == out@.map_values(|t: String| t@) + norm_filter(
                frags_from(s, i as int, s.subrange(start as int, i as int)),
            ),
        decreases n - i,
    {
        let ghost cur = s.subrange(start as int, i as int);
        let c = input.get_char(i);
        if char_alnum(c) {
            proof {
                assert(cur.push(s[i as int]) =~= s.subrange(start as int, i + 1));
            }
            i = i + 1;
        } else {
            if start < i {
                let frag = input.substring_char(start, i);
                let tok = normalize_token(frag);
                proof {
                    assert(frags_from(s, i as int, cur) == seq![cur] + frags_from(
                        s,
                        i as int + 1,
                        Seq::empty(),
                    ));
                    lemma_norm_filter_cons(cur, frags_from(s, i as int + 1, Seq::empty()));
                }
                if tok.unicode_len() > 0 {
                    let ghost old_out = out@;
                    out.push(tok);
                    proof {
                        assert(emit_token(cur) == seq![tok@]);
                        assert(out@.map_values(|t: String| t@) =~= old_out.map_values(
                            |t: String| t@,
                        ) + seq![tok@]);
                        assert(old_out.map_values(|t: String| t@) + (seq![tok@] + norm_filter(
                            frags_from(s, i as int + 1, Seq::empty()),
                        )) =~= out@.map_values(|t: String| t@) + norm_filter(
                            frags_from(s, i as int + 1, Seq::empty()),
                        ));
                    }
                } else {
                    proof {
                        assert(emit_token(cur) =~= Seq::<Seq<char>>::empty());
                        assert(Seq::<Seq<char>>::empty() + norm_filter(
                            frags_from(s, i as int + 1, Seq::empty()),
                        ) =~= norm_filter(frags_from(s, i as int + 1, Seq::empty())));
                    }
                }
            }
            i = i + 1;
            start = i;
            proof {
                assert(s.subrange(start as int, i as int) =~= Seq::<char>::empty());
            }
        }
    }
    let ghost cur = s.subrange(start as int, i as int);
    if start < n {
        let frag = input.substring_char(start, n);
        let tok = normalize_token(frag);
        proof {
            assert(frags_from(s, n as int, cur) == seq![cur]);
            assert(seq![cur].drop_first() =~= Seq::<Seq<char>>::empty());
            assert(norm_filter(seq![cur]) =~= emit_token(cur) + norm_filter(
                Seq::<Seq<char>>::empty(),
            ));
        }
        if tok.unicode_len() > 0 {
            let ghost old_out = out@;
            out.push(tok);
            proof {
                assert(emit_token(cur) == seq![tok@]);
                assert(out@.map_values(|t: String| t@) =~= old_out.map_values(|t: String| t@)
                    + seq![tok@]);
                assert(spec_tokenize(s) =~= out@.map_values(|t: String| t@));
            }
        } else {
            proof {
                assert(spec_tokenize(s) =~= out@.map_values(|t: String| t@));
            }
        }
    } else {
        proof {
            assert(frags_from(s, n as int, cur) =~= Seq::<Seq<char>>::empty());
            assert(spec_tokenize(s) =~= out@.map_values(|t: String| t@));
        }
    }
    out
}

proof fn lemma_norm_filter_nonempty(frags: Seq<Seq<char>>)
    ensures
        forall|i: int|
            0 <= i < norm_filter(frags).len() ==> #[trigger] norm_filter(frags)[i].len() > 0,
    decreases frags.len(),
{
    if frags.len() > 0 {
        lemma_norm_filter_nonempty(frags.drop_first());
        let head = emit_token(frags[0]);
        let rest = norm_filter(frags.drop_first());
        assert forall|i: int| 0 <= i < norm_filter(frags).len() implies #[trigger] norm_filter(
            frags,
        )[i].len() > 0 by {
            if i < head.len() {
                assert(norm_filter(frags)[i] == norm_of(frags[0]));
            } else {
                assert(norm_filter(frags)[i] == rest[i - head.len()]);
            }
        }
    }
}

proof fn lemma_frags_from_alnum(s: Seq<char>, i: int, cur: Seq<char>)
    requires
        0 <= i <= s.len(),
        forall|j: int| 0 <= j < cur.len() ==> is_alnum(cur[j]),
    ensures
        forall|a: int|
            0 <= a < frags_from(s, i, cur).len() ==> {
                let f = #[trigger] frags_from(s, i, cur)[a];
                f.len() > 0 && forall|j: int| 0 <= j < f.len() ==> is_alnum(#[trigger] f[j])
            },
    decreases s.len() - i,
{
    if i >= s.len() {
        if cur.len() > 0 {
            assert forall|a: int| 0 <= a < frags_from(s, i, cur).len() implies {
                let f = #[trigger] frags_from(s, i, cur)[a];
                f.len() > 0 && forall|j: int| 0 <= j < f.len() ==> is_alnum(#[trigger] f[j])
            } by {
                assert(frags_from(s, i, cur) == seq![cur]);
                assert(frags_from(s, i, cur)[a] == cur);
            }
        }
    } else if is_alnum(s[i]) {
        assert(forall|j: int| 0 <= j < cur.push(s[i]).len() ==> is_alnum(#[trigger] cur.push(
            s[i],
        )[j]));
        lemma_frags_from_alnum(s, i + 1, cur.push(s[i]));
        assert(frags_from(s, i, cur) == frags_from(s, i + 1, cur.push(s[i])));
    } else if cur.len() > 0 {
        lemma_frags_from_alnum(s, i + 1, Seq::empty());
        let rec = frags_from(s, i + 1, Seq::empty());
        assert forall|a: int| 0 <= a < frags_from(s, i, cur).len() implies {
            let f = #[trigger] frags_from(s, i, cur)[a];
            f.len() > 0 && forall|j: int| 0 <= j < f.len() ==> is_alnum(#[trigger] f[j])
        } by {
            if a == 0 {
                assert(frags_from(s, i, cur)[a] == cur);
            } else {
                assert(frags_from(s, i, cur)[a] == rec[a - 1]);
            }
        }
    } else {
        lemma_frags_from_alnum(s, i + 1, Seq::empty());
    }
}

proof fn lemma_norm_filter_members(frags: Seq<Seq<char>>)
    ensures
        forall|i: int|
            0 <= i < norm_filter(frags).len() ==> exists|a: int|
                0 <= a < frags.len() && #[trigger] norm_filter(frags)[i] == norm_of(frags[a]),
    decreases frags.len(),
{
    if frags.len() > 0 {
        lemma_norm_filter_members(frags.drop_first());
        assert forall|i: int| 0 <= i < norm_filter(frags).len() implies exists|a: int|
            0 <= a < frags.len() && #[trigger] norm_filter(frags)[i] == norm_of(frags[a]) by {
            let head = emit_token(frags[0]);
            if i < head.len() {
                assert(norm_filter(frags)[i] == norm_of(frags[0]));
            } else {
                let rest = frags.drop_first();
                let a0 = choose|a0: int|
                    0 <= a0 < rest.len() && norm_filter(rest)[i - head.len()] == norm_of(rest[a0]);
                assert(rest[a0] == frags[a0 + 1]);
                assert(norm_filter(frags)[i] == norm_of(frags[a0 + 1]));
            }
        }
    }
}

/// No token is empty, and every token is the normalized form of some
/// nonempty, purely alphanumeric fragment of the input.
pub proof fn lemma_tokens_shape(s: Seq<char>)
    ensures
        forall|i: int|
            0 <= i < spec_tokenize(s).len() ==> #[trigger] spec_tokenize(s)[i].len() > 0,
        forall|i: int|
            0 <= i < spec_tokenize(s).len() ==> exists|a: int|
                0 <= a < spec_fragments(s).len() && #[trigger] spec_tokenize(s)[i] == norm_of(
                    spec_fragments(s)[a],
                ),
        forall|a: int|
            0 <= a < spec_fragments(s).len() ==> {
                let f = #[trigger] spec_fragments(s)[a];
                f.len() > 0 && forall|j: int| 0 <= j < f.len() ==> is_alnum(#[trigger] f[j])
            },
{
    lemma_norm_filter_nonempty(spec_fragments(s));
    lemma_norm_filter_members(spec_fragments(s));
    lemma_frags_from_alnum(s, 0, Seq::empty());
}

} // verus!
