//! Which paths name an image: a test on the path's extension alone.
//!
//! A path is read as components separated by `/`. Its file name is its last
//! component, where empty components and components `.` at the end do not
//! count. The extension is what follows the last `.` of the file name, if
//! that `.` is not the file name's first character.

use vstd::prelude::*;
use vstd::string::StrSliceExecFns;

verus! {

/// The extensions of the image formats that are read, in lower case.
pub const SUFFIXES: [&'static str; 7] = ["bmp", "gif", "jpg", "jpeg", "jxl", "png", "webp"];

/// Index of the last `c` in `s`, or -1 if there is none.
pub open spec fn last_index_of(s: Seq<char>, c: char) -> int
    decreases s.len(),
{
    if s.len() == 0 {
        -1
    } else if s.last() == c {
        s.len() - 1
    } else {
        last_index_of(s.drop_last(), c)
    }
}

/// Length of `path` without the separators and the components `.` that end it.
pub open spec fn trimmed_len(path: Seq<char>) -> nat
    decreases path.len(),
{
    let n = path.len() as int;
    if n >= 1 && path[n - 1] == '/' {
        trimmed_len(path.take(n - 1))
    } else if n >= 2 && path[n - 1] == '.' && path[n - 2] == '/' {
        trimmed_len(path.take(n - 2))
    } else {
        path.len()
    }
}

/// The last component of `path`; empty if the path has none.
pub open spec fn file_name(path: Seq<char>) -> Seq<char> {
    let body = path.take(trimmed_len(path) as int);
    body.skip(last_index_of(body, '/') + 1)
}

/// The extension of a file name, without its dot.
pub open spec fn extension(name: Seq<char>) -> Option<Seq<char>> {
    let dot = last_index_of(name, '.');
    if dot <= 0 || name == seq!['.', '.'] {
        None
    } else {
        Some(name.skip(dot + 1))
    }
}

/// The extension of `path`'s file name is one of `SUFFIXES`, letter for letter.
pub open spec fn is_image_path(path: Seq<char>) -> bool {
    match extension(file_name(path)) {
        Some(ext) => exists|i: int| 0 <= i < SUFFIXES@.len() && #[trigger] SUFFIXES@[i]@ == ext,
        None => false,
    }
}

/// `last_index_of` finds an occurrence after which there is no other.
pub proof fn lemma_last_index_of(s: Seq<char>, c: char)
    ensures
        -1 <= last_index_of(s, c) < s.len(),
        last_index_of(s, c) >= 0 ==> s[last_index_of(s, c)] == c,
        forall|j: int| last_index_of(s, c) < j < s.len() ==> s[j] != c,
    decreases s.len(),
{
    if s.len() != 0 && s.last() != c {
        let front = s.drop_last();
        lemma_last_index_of(front, c);
        assert forall|j: int| last_index_of(s, c) < j < s.len() implies s[j] != c by {
            if j < front.len() {
                assert(front[j] == s[j]);
            }
        }
    }
}

/// An occurrence after which there is no other is the one `last_index_of` finds.
pub proof fn lemma_last_index_is(s: Seq<char>, c: char, k: int)
    requires
        -1 <= k < s.len(),
        k >= 0 ==> s[k] == c,
        forall|j: int| k < j < s.len() ==> s[j] != c,
    ensures
        last_index_of(s, c) == k,
{
    lemma_last_index_of(s, c);
}

/// Whether two strings hold the same characters.
fn same_text(a: &str, b: &str) -> (same: bool)
    ensures
        same == (a@ == b@),
{
    let n = a.unicode_len();
    if n != b.unicode_len() {
        return false;
    }
    let mut i: usize = 0;
    while i < n
        invariant
            i <= n,
            n == a@.len(),
            n == b@.len(),
            forall|k: int| 0 <= k < i ==> a@[k] == b@[k],
        decreases n - i,
    {
        if a.get_char(i) != b.get_char(i) {
            return false;
        }
        i += 1;
    }
    assert(a@ =~= b@);
    true
}

/// Whether `ext` is one of `SUFFIXES`.
fn is_suffix(ext: &str) -> (found: bool)
    ensures
        found == exists|i: int| 0 <= i < SUFFIXES@.len() && #[trigger] SUFFIXES@[i]@ == ext@,
{
    let mut i: usize = 0;
    while i < 7
        invariant
            i <= 7,
            SUFFIXES@.len() == 7,
            forall|k: int| 0 <= k < i ==> #[trigger] SUFFIXES@[k]@ != ext@,
        decreases 7 - i,
    {
        if same_text(SUFFIXES[i], ext) {
            return true;
        }
        i += 1;
    }
    false
}

/// Whether `file` names an image: whether the extension of its file name is
/// one of `SUFFIXES`. Only the text of the path is looked at.
pub fn has_image_suffix(file: &str) -> (found: bool)
    ensures
        found == is_image_path(file@),
{
    let n = file.unicode_len();
    let mut end: usize = n;
    assert(file@.take(n as int) =~= file@);
    loop
        invariant_except_break
            end <= n,
            n == file@.len(),
            trimmed_len(file@) == trimmed_len(file@.take(end as int)),
        ensures
            end <= n,
            n == file@.len(),
            trimmed_len(file@) == end,
        decreases end,
    {
        let ghost body = file@.take(end as int);
        if end >= 1 && file.get_char(end - 1) == '/' {
            assert(body.take(end - 1) =~= file@.take(end - 1));
            end -= 1;
        } else if end >= 2 && file.get_char(end - 1) == '.' && file.get_char(end - 2) == '/' {
            assert(body.take(end - 2) =~= file@.take(end - 2));
            end -= 2;
        } else {
            break ;
        }
    }
    let ghost body = file@.take(end as int);
    let ghost slash = last_index_of(body, '/');
    let ghost name = body.skip(slash + 1);
    proof {
        lemma_last_index_of(body, '/');
    }
    let mut i: usize = end;
    while i > 0
        invariant
            i <= end <= n,
            n == file@.len(),
            body == file@.take(end as int),
            trimmed_len(file@) == end,
            slash == last_index_of(body, '/'),
            name == body.skip(slash + 1),
            -1 <= slash < end,
            slash >= 0 ==> body[slash] == '/',
            forall|j: int| i <= j < end ==> body[j] != '/' && body[j] != '.',
        decreases i,
    {
        let c = file.get_char(i - 1);
        if c == '/' {
            proof {
                lemma_last_index_is(body, '/', i - 1);
                lemma_last_index_is(name, '.', -1);
            }
            return false;
        }
        if c == '.' {
            let dot: usize = i - 1;
            assert(slash < dot);
            proof {
                lemma_last_index_is(name, '.', dot - slash - 1);
            }
            if dot == 0 {
                return false;
            }
            if file.get_char(dot - 1) == '/' {
                proof {
                    lemma_last_index_is(body, '/', dot - 1);
                }
                return false;
            }
            assert(slash < dot - 1);
            let ext = file.substring_char(dot + 1, end);
            assert(ext@ =~= name.skip(dot - slash));
            let found = is_suffix(ext);
            proof {
                if name == seq!['.', '.'] {
                    assert(ext@.len() == 0);
                    reveal_strlit("bmp");
                    reveal_strlit("gif");
                    reveal_strlit("jpg");
                    reveal_strlit("jpeg");
                    reveal_strlit("jxl");
                    reveal_strlit("png");
                    reveal_strlit("webp");
                    assert(SUFFIXES@.len() == 7);
                    assert forall|k: int| 0 <= k < 7 implies #[trigger] SUFFIXES@[k]@ != ext@ by {
                        assert(SUFFIXES@[k]@.len() >= 3);
                    }
                }
            }
            return found;
        }
        i -= 1;
    }
    proof {
        lemma_last_index_is(body, '/', -1);
        lemma_last_index_is(name, '.', -1);
    }
    false
}

} // verus!
