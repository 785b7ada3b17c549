//! The pointer file `HEAD`: `"ref: <path of a reference>"`, which names the
//! file that holds the digest of the current commit.

use vstd::prelude::*;
use vstd::string::*;
use crate::error::StoreError;

verus! {

/// Whether a character is white space.
pub open spec fn is_whitespace(c: char) -> bool {
    ||| ('\u{9}' <= c && c <= '\u{d}')
    ||| c == ' '
    ||| c == '\u{85}'
    ||| c == '\u{a0}'
    ||| c == '\u{1680}'
    ||| ('\u{2000}' <= c && c <= '\u{200a}')
    ||| c == '\u{2028}'
    ||| c == '\u{2029}'
    ||| c == '\u{202f}'
    ||| c == '\u{205f}'
    ||| c == '\u{3000}'
}

/// A text without the white space at its start.
pub open spec fn trim_start(text: Seq<char>) -> Seq<char>
    decreases text.len(),
{
    if text.len() > 0 && is_whitespace(text[0]) {
        trim_start(text.drop_first())
    } else {
        text
    }
}

/// A text without the white space at its end.
pub open spec fn trim_end(text: Seq<char>) -> Seq<char>
    decreases text.len(),
{
    if text.len() > 0 && is_whitespace(text.last()) {
        trim_end(text.drop_last())
    } else {
        text
    }
}

/// A text without the white space at either end.
pub open spec fn trimmed(text: Seq<char>) -> Seq<char> {
    trim_end(trim_start(text))
}

/// The file that `HEAD` points to: where its text, trimmed, is `"ref: "`
/// and a path, that path below `.git/`.
pub open spec fn head_target(head: Seq<char>) -> Option<Seq<char>> {
    let text = trimmed(head);
    if text.len() >= 5 && text.take(5) == "ref: "@ {
        Some(".git/"@ + text.skip(5))
    } else {
        None
    }
}

/// What `HEAD` holds in a store that was just set up.
pub open spec fn initial_head() -> Seq<char> {
    "ref: refs/heads/main\n"@
}

proof fn lemma_trim_start(text: Seq<char>, k: int)
    requires
        0 <= k <= text.len(),
        forall|j: int| 0 <= j < k ==> is_whitespace(text[j]),
        k < text.len() ==> !is_whitespace(text[k]),
    ensures
        trim_start(text) == text.skip(k),
    decreases k,
{
    if k == 0 {
        assert(text.skip(0) =~= text);
    } else {
        let rest = text.drop_first();
        assert forall|j: int| 0 <= j < k - 1 implies is_whitespace(rest[j]) by {
            assert(rest[j] == text[j + 1]);
        }
        lemma_trim_start(rest, k - 1);
        assert(rest.skip(k - 1) =~= text.skip(k));
    }
}

proof fn lemma_trim_end(text: Seq<char>, k: int)
    requires
        0 <= k <= text.len(),
        forall|j: int| k <= j < text.len() ==> is_whitespace(text[j]),
        k > 0 ==> !is_whitespace(text[k - 1]),
    ensures
        trim_end(text) == text.take(k),
    decreases text.len() - k,
{
    if k == text.len() {
        assert(text.take(k) =~= text);
    } else {
        let rest = text.drop_last();
        assert(is_whitespace(text[text.len() - 1]));
        lemma_trim_end(rest, k);
        assert(rest.take(k) =~= text.take(k));
    }
}

/// Whether a character is white space.
pub fn whitespace(c: char) -> (white: bool)
    ensures
        white == is_whitespace(c),
{
    ('\u{9}' <= c && c <= '\u{d}') || c == ' ' || c == '\u{85}' || c == '\u{a0}' || c
        == '\u{1680}' || ('\u{2000}' <= c && c <= '\u{200a}') || c == '\u{2028}' || c
        == '\u{2029}' || c == '\u{202f}' || c == '\u{205f}' || c == '\u{3000}'
}

/// Trims white space from both ends of a text.
pub fn trim(text: &str) -> (inner: &str)
    ensures
        inner@ == trimmed(text@),
{
    let count = text.unicode_len();
    let mut start: usize = 0;
    while start < count && whitespace(text.get_char(start))
        invariant
            start <= count,
            count == text@.len(),
            forall|j: int| 0 <= j < start ==> is_whitespace(text@[j]),
        decreases count - start,
    {
        start += 1;
    }
    let mut end: usize = count;
    while end > start && whitespace(text.get_char(end - 1))
        invariant
            start <= end <= count,
            count == text@.len(),
            forall|j: int| end <= j < count ==> is_whitespace(text@[j]),
        decreases end,
    {
        end -= 1;
    }
    proof {
        lemma_trim_start(text@, start as int);
        let rest = text@.skip(start as int);
        assert forall|j: int| end - start <= j < rest.len() implies is_whitespace(rest[j]) by {
            assert(rest[j] == text@[j + start]);
        }
        lemma_trim_end(rest, end - start);
        assert(rest.take(end - start) =~= text@.subrange(start as int, end as int));
    }
    text.substring_char(start, end)
}

/// Resolves `HEAD` to the file it points to. `UnsupportedOperation` where
/// `HEAD` is no `"ref: "` line, as when it holds a digest.
pub fn head_ref_path(head: &str) -> (path: Result<String, StoreError>)
    ensures
        match path {
            Ok(path) => head_target(head@) == Some(path@),
            Err(e) => head_target(head@) is None && e == StoreError::UnsupportedOperation,
        },
{
    let text = trim(head);
    let count = text.unicode_len();
    proof {
        reveal_strlit("ref: ");
    }
    if count >= 5 && text.get_char(0) == 'r' && text.get_char(1) == 'e' && text.get_char(2) == 'f'
        && text.get_char(3) == ':' && text.get_char(4) == ' ' {
        assert(text@.take(5) =~= "ref: "@);
        let mut path = String::from_str(".git/");
        path.append(text.substring_char(5, count));
        assert(text@.subrange(5, count as int) =~= text@.skip(5));
        Ok(path)
    } else {
        proof {
            if text@.len() >= 5 && text@.take(5) == "ref: "@ {
                assert(text@.take(5)[0] == 'r');
                assert(text@.take(5)[1] == 'e');
                assert(text@.take(5)[2] == 'f');
                assert(text@.take(5)[3] == ':');
                assert(text@.take(5)[4] == ' ');
            }
        }
        Err(StoreError::UnsupportedOperation)
    }
}

/// The text of `HEAD` in a store that was just set up.
pub fn new_head() -> (head: String)
    ensures
        head@ == initial_head(),
{
    String::from_str("ref: refs/heads/main\n")
}

/// A store that was just set up points to `refs/heads/main`.
pub proof fn lemma_initial_head()
    ensures
        head_target(initial_head()) == Some(".git/refs/heads/main"@),
{
    reveal_strlit("ref: refs/heads/main\n");
    reveal_strlit("ref: ");
    reveal_strlit(".git/");
    reveal_strlit(".git/refs/heads/main");
    let head = initial_head();
    assert(!is_whitespace(head[0]));
    lemma_trim_start(head, 0);
    lemma_trim_end(head, 20);
    let text = trimmed(head);
    assert(text =~= head.take(20));
    assert(text.take(5) =~= "ref: "@);
    assert(".git/"@ + text.skip(5) =~= ".git/refs/heads/main"@);
}

} // verus!
