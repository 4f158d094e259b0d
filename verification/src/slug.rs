//! The slug engine: from a free-text title to a token that is safe in a
//! file name.

use crate::text::{chars_of, string_of};
use vstd::prelude::*;

verus! {

/// The lowercase form of a text, as `str::to_lowercase` gives it.
pub uninterp spec fn lowercase_of(text: Seq<char>) -> Seq<char>;

/// True for the characters that `char::is_alphanumeric` accepts.
pub uninterp spec fn is_alphanumeric(c: char) -> bool;

/// `str::to_lowercase` returns the lowercase equivalent of the text as a new
/// string; the result depends on the text alone.
pub assume_specification[ str::to_lowercase ](text: &str) -> (lowered: String)
    ensures
        lowered@ == lowercase_of(text@),
;

/// `char::is_alphanumeric` tells whether the character is alphabetic or
/// numeric in the sense of Unicode; the answer depends on the character
/// alone.
pub assume_specification[ char::is_alphanumeric ](c: char) -> (yes: bool)
    ensures
        yes == is_alphanumeric(c),
;

/// The text with every character that is not alphanumeric replaced by the
/// separator `-`.
pub open spec fn separated(text: Seq<char>) -> Seq<char> {
    text.map_values(
        |c: char|
            if is_alphanumeric(c) {
                c
            } else {
                '-'
            },
    )
}

/// True when the character at `i` of `s` stays in the slug: every character
/// that is no separator stays, and a separator stays where it is the first
/// of its run and the run has other characters on both sides.
pub open spec fn stays(s: Seq<char>, i: int) -> bool {
    s[i] != '-' || (i > 0 && s[i - 1] != '-' && exists|j: int| i < j < s.len() && s[j] != '-')
}

/// The characters among the first `n` of `s` that stay, in order.
pub open spec fn kept(s: Seq<char>, n: int) -> Seq<char>
    decreases n,
{
    if n <= 0 {
        Seq::empty()
    } else if stays(s, n - 1) {
        kept(s, n - 1).push(s[n - 1])
    } else {
        kept(s, n - 1)
    }
}

/// The text with its runs of separators squeezed to one each, and without
/// separators at either end.
pub open spec fn squeezed(s: Seq<char>) -> Seq<char> {
    kept(s, s.len() as int)
}

/// The slug of a text: lowercased, separated and squeezed.
pub open spec fn slug_of(text: Seq<char>) -> Seq<char> {
    squeezed(separated(lowercase_of(text)))
}

/// True when `s` has the shape of a slug: no separator at either end, and
/// no two separators in a row.
pub open spec fn is_slug_shaped(s: Seq<char>) -> bool {
    &&& s.len() > 0 ==> s[0] != '-' && s[s.len() - 1] != '-'
    &&& forall|i: int| 0 <= i < s.len() - 1 ==> !(#[trigger] s[i] == '-' && s[i + 1] == '-')
}

/// What holds of the characters kept among the first `n`: the first is no
/// separator, no two separators follow each other, a character that stays
/// is the last one kept, and a separator that is kept last has only
/// separators after it.
proof fn lemma_kept_shape(s: Seq<char>, n: int)
    requires
        0 <= n <= s.len(),
    ensures
        kept(s, n).len() <= n,
        kept(s, n).len() > 0 ==> kept(s, n)[0] != '-',
        forall|i: int|
            0 <= i < kept(s, n).len() - 1 ==> !(#[trigger] kept(s, n)[i] == '-' && kept(s, n)[i
                + 1] == '-'),
        n > 0 && stays(s, n - 1) ==> kept(s, n).len() > 0 && kept(s, n).last() == s[n - 1],
        kept(s, n).len() > 0 && kept(s, n).last() == '-' ==> exists|m: int|
            0 <= m < n && s[m] == '-' && #[trigger] stays(s, m) && forall|j: int|
                m < j < n ==> s[j] == '-',
    decreases n,
{
    if n > 0 {
        lemma_kept_shape(s, n - 1);
        let prev = kept(s, n - 1);
        if stays(s, n - 1) {
            let now = kept(s, n);
            assert(now == prev.push(s[n - 1]));
            if s[n - 1] == '-' {
                assert(stays(s, n - 2));
                assert(prev.last() == s[n - 2]);
                assert(stays(s, n - 1) && forall|j: int| n - 1 < j < n ==> s[j] == '-');
            }
            assert forall|i: int| 0 <= i < now.len() - 1 implies !(#[trigger] now[i] == '-'
                && now[i + 1] == '-') by {
                if i < prev.len() - 1 {
                    assert(now[i] == prev[i] && now[i + 1] == prev[i + 1]);
                } else {
                    assert(now[i] == prev.last());
                    if prev.last() == '-' && s[n - 1] == '-' {
                        assert(s[n - 2] != '-');
                        let m = choose|m: int|
                            0 <= m < n - 1 && s[m] == '-' && #[trigger] stays(s, m) && forall|
                                j: int,
                            |
                                m < j < n - 1 ==> s[j] == '-';
                        assert(false);
                    }
                }
            }
        } else {
            assert(s[n - 1] == '-');
            if prev.len() > 0 && prev.last() == '-' {
                let m = choose|m: int|
                    0 <= m < n - 1 && s[m] == '-' && #[trigger] stays(s, m) && forall|j: int|
                        m < j < n - 1 ==> s[j] == '-';
                assert(stays(s, m) && forall|j: int| m < j < n ==> s[j] == '-');
            }
        }
    }
}

/// A squeezed text has the shape of a slug.
pub proof fn lemma_squeezed_is_slug_shaped(s: Seq<char>)
    ensures
        is_slug_shaped(squeezed(s)),
{
    let n = s.len() as int;
    lemma_kept_shape(s, n);
    let r = squeezed(s);
    if r.len() > 0 && r.last() == '-' {
        let m = choose|m: int|
            0 <= m < n && s[m] == '-' && #[trigger] stays(s, m) && forall|j: int|
                m < j < n ==> s[j] == '-';
        assert(false);
    }
}

/// Every character that is kept is a character of the text.
proof fn lemma_kept_from_text(s: Seq<char>, n: int)
    requires
        0 <= n <= s.len(),
    ensures
        forall|k: int|
            0 <= k < kept(s, n).len() ==> exists|i: int|
                0 <= i < n && s[i] == #[trigger] kept(s, n)[k],
    decreases n,
{
    if n > 0 {
        lemma_kept_shape(s, n - 1);
        lemma_kept_from_text(s, n - 1);
        let prev = kept(s, n - 1);
        let now = kept(s, n);
        assert forall|k: int| 0 <= k < now.len() implies exists|i: int|
            0 <= i < n && s[i] == #[trigger] now[k] by {
            if k < prev.len() {
                assert(now[k] == prev[k]);
                let i = choose|i: int| 0 <= i < n - 1 && s[i] == prev[k];
                assert(s[i] == now[k]);
            } else {
                assert(s[n - 1] == now[k]);
            }
        }
    }
}

/// Separators after the last other character add nothing to what is kept.
proof fn lemma_kept_ignores_tail(s: Seq<char>, end: int, n: int)
    requires
        0 <= end <= n <= s.len(),
        forall|j: int| end <= j < s.len() ==> s[j] == '-',
    ensures
        kept(s, n) == kept(s, end),
    decreases n - end,
{
    if n > end {
        lemma_kept_ignores_tail(s, end, n - 1);
        assert(!stays(s, n - 1));
    }
}

/// A text that has the shape of a slug is kept whole.
proof fn lemma_kept_whole(s: Seq<char>, n: int)
    requires
        is_slug_shaped(s),
        0 <= n <= s.len(),
    ensures
        kept(s, n) == s.take(n),
    decreases n,
{
    if n > 0 {
        lemma_kept_whole(s, n - 1);
        if s[n - 1] == '-' {
            assert(n - 1 > 0);
            assert(!(s[n - 2] == '-' && s[n - 1] == '-'));
            assert(n < s.len());
            assert(!(s[n - 1] == '-' && s[n] == '-'));
            assert(stays(s, n - 1));
        }
        assert(s.take(n) == s.take(n - 1).push(s[n - 1]));
    }
}

/// Squeezing changes nothing in a text that has the shape of a slug.
pub proof fn lemma_squeezed_fixes_slugs(s: Seq<char>)
    requires
        is_slug_shaped(s),
    ensures
        squeezed(s) == s,
{
    lemma_kept_whole(s, s.len() as int);
    assert(s.take(s.len() as int) == s);
}

/// Squeezing twice gives what squeezing once gives.
pub proof fn lemma_squeezed_idempotent(s: Seq<char>)
    ensures
        squeezed(squeezed(s)) == squeezed(s),
{
    lemma_squeezed_is_slug_shaped(s);
    lemma_squeezed_fixes_slugs(squeezed(s));
}

/// A slug holds alphanumeric characters and separators only, and
/// separating it again changes nothing.
pub proof fn lemma_slug_characters(text: Seq<char>)
    ensures
        forall|k: int|
            0 <= k < slug_of(text).len() ==> is_alphanumeric(#[trigger] slug_of(text)[k])
                || slug_of(text)[k] == '-',
        separated(slug_of(text)) == slug_of(text),
{
    let sep = separated(lowercase_of(text));
    let slug = slug_of(text);
    lemma_kept_from_text(sep, sep.len() as int);
    assert forall|k: int| 0 <= k < slug.len() implies is_alphanumeric(#[trigger] slug[k])
        || slug[k] == '-' by {
        let i = choose|i: int| 0 <= i < sep.len() && sep[i] == slug[k];
        assert(sep[i] == slug[k]);
    }
    assert(separated(slug) =~= slug);
}

/// Slugifying a slug gives the slug back, provided that lowercasing leaves
/// the slug as it is.
pub proof fn lemma_slug_of_slug(text: Seq<char>)
    requires
        lowercase_of(slug_of(text)) == slug_of(text),
    ensures
        slug_of(slug_of(text)) == slug_of(text),
{
    lemma_slug_characters(text);
    lemma_squeezed_idempotent(separated(lowercase_of(text)));
}

/// Squeezes a separated text: every run of separators becomes one, and the
/// separators at either end go.
pub fn squeeze(separated: &Vec<char>) -> (slug: Vec<char>)
    ensures
        slug@ == squeezed(separated@),
        is_slug_shaped(slug@),
{
    let mut end: usize = separated.len();
    while end > 0 && separated[end - 1] == '-'
        invariant
            end <= separated.len(),
            forall|j: int| end <= j < separated.len() ==> separated@[j] == '-',
        decreases end,
    {
        end -= 1;
    }
    let mut slug: Vec<char> = Vec::new();
    let mut k: usize = 0;
    while k < end
        invariant
            k <= end <= separated.len(),
            end > 0 ==> separated@[end - 1] != '-',
            slug@ == kept(separated@, k as int),
        decreases end - k,
    {
        let c: char = separated[k];
        if c != '-' || (k > 0 && separated[k - 1] != '-') {
            assert(stays(separated@, k as int)) by {
                if c == '-' {
                    assert(k < end - 1 && separated@[end - 1] != '-');
                }
            }
            slug.push(c);
        }
        k += 1;
    }
    proof {
        lemma_kept_ignores_tail(separated@, end as int, separated.len() as int);
        lemma_squeezed_is_slug_shaped(separated@);
    }
    slug
}

/// Derives the slug of a text: lowercase, every character that is not
/// alphanumeric turned into `-`, runs of `-` squeezed to one, and no `-` at
/// either end. A text without alphanumeric characters has the empty slug.
pub fn slugify(text: &str) -> (slug: String)
    ensures
        slug@ == slug_of(text@),
        is_slug_shaped(slug@),
        forall|k: int|
            0 <= k < slug@.len() ==> is_alphanumeric(#[trigger] slug@[k]) || slug@[k] == '-',
{
    let lowered = text.to_lowercase();
    let chars = chars_of(lowered.as_str());
    let mut sep: Vec<char> = Vec::new();
    let mut i: usize = 0;
    while i < chars.len()
        invariant
            i <= chars.len(),
            sep@ == separated(chars@.take(i as int)),
        decreases chars.len() - i,
    {
        let c: char = chars[i];
        let d: char = if c.is_alphanumeric() {
            c
        } else {
            '-'
        };
        assert(separated(chars@.take(i + 1)) =~= separated(chars@.take(i as int)).push(d));
        sep.push(d);
        i += 1;
    }
    assert(chars@.take(i as int) == chars@);
    let out = squeeze(&sep);
    proof {
        lemma_slug_characters(text@);
    }
    string_of(&out)
}

} // verus!
