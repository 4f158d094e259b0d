//! The title convention: a note's title is the text of its first
//! first-level Markdown heading.

use crate::text::{chars_of, string_of};
use vstd::prelude::*;

verus! {

/// The title of a note whose content gives none.
pub open spec fn default_title() -> Seq<char> {
    seq!['U', 'n', 't', 'i', 't', 'l', 'e', 'd']
}

/// True when a line begins at `i`: at the start of the content, and after
/// every line feed.
pub open spec fn is_line_start(content: Seq<char>, i: int) -> bool {
    i == 0 || content[i - 1] == '\n'
}

/// True when a first-level heading begins at `i`: a line that starts with
/// one `#` and a space.
pub open spec fn is_heading_at(content: Seq<char>, i: int) -> bool {
    &&& 0 <= i
    &&& i + 1 < content.len()
    &&& is_line_start(content, i)
    &&& content[i] == '#'
    &&& content[i + 1] == ' '
}

/// True when the first first-level heading of the content begins at `i`.
pub open spec fn is_first_heading(content: Seq<char>, i: int) -> bool {
    is_heading_at(content, i) && forall|j: int| 0 <= j < i ==> !is_heading_at(content, j)
}

/// The position of the first line feed at or after `from`, or the length of
/// the content where there is none.
pub open spec fn line_end(content: Seq<char>, from: int) -> int
    decreases content.len() - from,
{
    if from >= content.len() {
        content.len() as int
    } else if content[from] == '\n' {
        from
    } else {
        line_end(content, from + 1)
    }
}

/// Where the text of the line that holds `from` stops: at the end of the
/// line, or one before it where the line ends in a carriage return and a
/// line feed.
pub open spec fn text_end(content: Seq<char>, from: int) -> int {
    let end = line_end(content, from);
    if from < end < content.len() && content[end - 1] == '\r' {
        end - 1
    } else {
        end
    }
}

/// The text of the heading that begins at `i`: the rest of its line after
/// the `#` and the space.
pub open spec fn heading_text(content: Seq<char>, i: int) -> Seq<char> {
    content.subrange(i + 2, text_end(content, i + 2))
}

/// The title that a note's content gives: the text of its first first-level
/// heading, or `Untitled` where it has none.
pub open spec fn title_of(content: Seq<char>) -> Seq<char> {
    if exists|i: int| is_heading_at(content, i) {
        heading_text(content, choose|i: int| is_first_heading(content, i))
    } else {
        default_title()
    }
}

/// The characters of the default title.
fn default_title_chars() -> (word: Vec<char>)
    ensures
        word@ == default_title(),
{
    let word = chars_of("Untitled");
    proof {
        reveal_strlit("Untitled");
        assert(word@ =~= default_title());
    }
    word
}

/// The place at which the first first-level heading begins, if there is one.
fn find_heading(content: &Vec<char>) -> (found: Option<usize>)
    ensures
        match found {
            Some(i) => is_first_heading(content@, i as int),
            None => forall|j: int| !is_heading_at(content@, j),
        },
{
    let n: usize = content.len();
    let mut i: usize = 0;
    while i < n
        invariant
            i <= n,
            n == content.len(),
            forall|j: int| 0 <= j < i ==> !is_heading_at(content@, j),
        decreases n - i,
    {
        if (i == 0 || content[i - 1] == '\n') && content[i] == '#' && i + 1 < n && content[i + 1]
            == ' ' {
            return Some(i);
        }
        i += 1;
    }
    None
}

/// Extracts the title from a note's content.
pub fn parse_title(content: &str) -> (title: String)
    ensures
        title@ == title_of(content@),
{
    let chars = chars_of(content);
    let n: usize = chars.len();
    match find_heading(&chars) {
        None => {
            let word = default_title_chars();
            string_of(&word)
        },
        Some(start) => {
            proof {
                let chosen = choose|i: int| is_first_heading(chars@, i);
                assert(is_first_heading(chars@, start as int));
                assert(chosen == start);
            }
            let from: usize = start + 2;
            let mut end: usize = from;
            while end < n && chars[end] != '\n'
                invariant
                    from <= end <= n,
                    n == chars.len(),
                    line_end(chars@, from as int) == line_end(chars@, end as int),
                decreases n - end,
            {
                end += 1;
            }
            let stop: usize = if from < end && end < n && chars[end - 1] == '\r' {
                end - 1
            } else {
                end
            };
            assert(stop == text_end(chars@, from as int));
            let mut text: Vec<char> = Vec::new();
            let mut k: usize = from;
            while k < stop
                invariant
                    from <= k <= stop <= n,
                    n == chars.len(),
                    text@ == chars@.subrange(from as int, k as int),
                decreases stop - k,
            {
                text.push(chars[k]);
                k += 1;
            }
            string_of(&text)
        },
    }
}

} // verus!
