//! File names as text: the last component of a `/`-separated path, and the
//! extension of it. What separates components on a platform is for the program
//! to know; it hands over the last component, which holds no separator.

use vstd::prelude::*;
use vstd::slice::slice_subrange;

use crate::text::{chars_of, find_last, last_of, same_text, string_of};

verus! {

/// `path` without the separators and `.` components at its end.
pub open spec fn strip_end(path: Seq<char>) -> Seq<char>
    decreases path.len(),
{
    let n = path.len() as int;
    if n > 0 && path[n - 1] == '/' {
        strip_end(path.drop_last())
    } else if n > 1 && path[n - 1] == '.' && path[n - 2] == '/' {
        strip_end(path.take(n - 2))
    } else {
        path
    }
}

/// The last component of `path`. Components stand between slashes.
pub open spec fn last_component(path: Seq<char>) -> Seq<char> {
    let stripped = strip_end(path);
    stripped.skip(last_of(stripped, '/') + 1)
}

/// The extension of the file that `path` names: what follows the last dot of
/// its last component, where something stands before that dot.
pub open spec fn extension(path: Seq<char>) -> Option<Seq<char>> {
    let name = last_component(path);
    let dot = last_of(name, '.');
    if dot <= 0 || name == seq!['.', '.'] {
        None
    } else {
        Some(name.skip(dot + 1))
    }
}

/// Whether `text` is one of `words`.
pub open spec fn listed(words: Seq<Seq<char>>, text: Seq<char>) -> bool {
    words.contains(text)
}

/// The texts of a list of words.
pub open spec fn word_list(words: Seq<&'static str>) -> Seq<Seq<char>> {
    Seq::new(words.len(), |i: int| words[i]@)
}

/// Finds the extension of the file that `path` names.
pub fn extension_of(path: &str) -> (r: Option<String>)
    ensures
        match r {
            Some(text) => extension(path@) == Some(text@),
            None => extension(path@) is None,
        },
{
    let chars = chars_of(path);
    let s = chars.as_slice();
    let mut n: usize = s.len();
    let mut open: bool = true;
    assert(s@.take(n as int) =~= s@);
    while open
        invariant
            n <= s.len(),
            strip_end(s@) == strip_end(s@.take(n as int)),
            !open ==> strip_end(s@) == s@.take(n as int),
        decreases n, (if open { 1int } else { 0int }),
    {
        let ghost cur = s@.take(n as int);
        if n > 0 && s[n - 1] == '/' {
            assert(cur.drop_last() =~= s@.take(n - 1));
            n = n - 1;
        } else if n > 1 && s[n - 1] == '.' && s[n - 2] == '/' {
            assert(cur.take(n - 2) =~= s@.take(n - 2));
            n = n - 2;
        } else {
            open = false;
        }
    }
    let stripped = slice_subrange(s, 0, n);
    assert(stripped@ =~= strip_end(path@));
    let start: usize = match find_last(stripped, '/') {
        Some(i) => i + 1,
        None => 0,
    };
    let name = slice_subrange(stripped, start, n);
    assert(name@ =~= last_component(path@));
    match find_last(name, '.') {
        None => None,
        Some(dot) => {
            if dot == 0 {
                return None;
            }
            if name.len() == 2 && name[0] == '.' && name[1] == '.' {
                assert(name@ =~= seq!['.', '.']);
                return None;
            }
            assert(name@ != seq!['.', '.']) by {
                if name@ == seq!['.', '.'] {
                    assert(name@.len() == 2);
                    assert(name@[0] == '.');
                }
            }
            let tail = slice_subrange(name, dot + 1, name.len());
            assert(tail@ =~= name@.skip(dot + 1));
            Some(string_of(tail))
        },
    }
}

/// Whether `text` is one of `words`.
pub fn is_listed(words: &[&'static str], text: &str) -> (r: bool)
    ensures
        r == listed(word_list(words@), text@),
{
    let mut i: usize = 0;
    while i < words.len()
        invariant
            i <= words.len(),
            forall|j: int| 0 <= j < i ==> (#[trigger] words@[j])@ != text@,
        decreases words.len() - i,
    {
        if same_text(words[i], text) {
            assert(word_list(words@)[i as int] == text@);
            return true;
        }
        i = i + 1;
    }
    proof {
        if listed(word_list(words@), text@) {
            let j = word_list(words@).index_of(text@);
            assert(words@[j]@ == text@);
        }
    }
    false
}

} // verus!
