//! Which directory entries are shared libraries on a given platform.

use vstd::prelude::*;

verus! {

/// The host conventions that decide a shared library's file extension.
#[derive(Clone, Copy, Debug, PartialEq, Eq, Structural)]
pub enum Platform {
    Windows,
    MacOs,
    Unix,
}

/// The extension (lower case, without the dot) of shared libraries on `p`.
pub open spec fn library_extension(p: Platform) -> Seq<char> {
    match p {
        Platform::Windows => "dll"@,
        Platform::MacOs => "dylib"@,
        Platform::Unix => "so"@,
    }
}

/// An ASCII letter folded to lower case; every other character as it is.
pub open spec fn ascii_fold(c: char) -> int {
    if 'A' <= c && c <= 'Z' {
        (c as u32) + 32
    } else {
        c as u32 as int
    }
}

/// `a` and `b` are equal up to the case of ASCII letters.
pub open spec fn eq_ignore_ascii_case(a: Seq<char>, b: Seq<char>) -> bool {
    &&& a.len() == b.len()
    &&& forall|i: int| 0 <= i < a.len() ==> ascii_fold(#[trigger] a[i]) == ascii_fold(b[i])
}

/// `i` is the position of the dot that starts the extension of file name `name`:
/// the last dot, when it is not the first character.
pub open spec fn is_extension_dot(name: Seq<char>, i: int) -> bool {
    &&& 0 < i < name.len()
    &&& name[i] == '.'
    &&& forall|j: int| i < j < name.len() ==> #[trigger] name[j] != '.'
}

/// File name `name` has an extension equal to `ext` up to ASCII case.
pub open spec fn has_extension(name: Seq<char>, ext: Seq<char>) -> bool {
    exists|i: int|
        is_extension_dot(name, i) && eq_ignore_ascii_case(
            #[trigger] name.subrange(i + 1, name.len() as int),
            ext,
        )
}

/// The extension that shared libraries have on `p`.
pub fn library_extension_of(p: Platform) -> (r: &'static str)
    ensures
        r@ == library_extension(p),
{
    match p {
        Platform::Windows => "dll",
        Platform::MacOs => "dylib",
        Platform::Unix => "so",
    }
}

fn fold_char(c: char) -> (r: u32)
    ensures
        r as int == ascii_fold(c),
{
    if 'A' <= c && c <= 'Z' {
        (c as u32) + 32
    } else {
        c as u32
    }
}

/// Whether the characters of `name` from `start` on equal `ext` up to ASCII case.
fn tail_eq_ignore_ascii_case(name: &str, start: usize, ext: &str) -> (r: bool)
    requires
        start <= name@.len(),
    ensures
        r == eq_ignore_ascii_case(name@.subrange(start as int, name@.len() as int), ext@),
{
    let n = name.unicode_len();
    let m = ext.unicode_len();
    if n - start != m {
        return false;
    }
    let ghost tail = name@.subrange(start as int, name@.len() as int);
    let mut k: usize = 0;
    while k < m
        invariant
            n == name@.len(),
            m == ext@.len(),
            n - start == m,
            start <= n,
            tail == name@.subrange(start as int, name@.len() as int),
            k <= m,
            forall|i: int| 0 <= i < k ==> ascii_fold(#[trigger] tail[i]) == ascii_fold(ext@[i]),
        decreases m - k,
    {
        let a = name.get_char(start + k);
        let b = ext.get_char(k);
        if fold_char(a) != fold_char(b) {
            assert(ascii_fold(tail[k as int]) != ascii_fold(ext@[k as int]));
            return false;
        }
        k = k + 1;
    }
    true
}

/// Whether a directory entry with file name `file_name` is a shared library on
/// platform `p`: its extension is the platform's, compared without regard to
/// the case of ASCII letters. A name whose only dot is its first character has
/// no extension.
pub fn is_shared_library(file_name: &str, p: Platform) -> (r: bool)
    ensures
        r == has_extension(file_name@, library_extension(p)),
{
    let ext = library_extension_of(p);
    let n = file_name.unicode_len();
    let mut i: usize = n;
    while i > 0
        invariant
            n == file_name@.len(),
            ext@ == library_extension(p),
            i <= n,
            forall|j: int| i <= j < n ==> #[trigger] file_name@[j] != '.',
        decreases i,
    {
        let c = file_name.get_char(i - 1);
        if c == '.' {
            let d = i - 1;
            if d == 0 {
                proof {
                    assert forall|k: int| is_extension_dot(file_name@, k) implies false by {
                        if k > 0 {
                            assert(file_name@[k] != '.');
                        }
                    }
                }
                return false;
            }
            let r = tail_eq_ignore_ascii_case(file_name, d + 1, ext);
            proof {
                assert(is_extension_dot(file_name@, d as int));
                assert forall|k: int| is_extension_dot(file_name@, k) implies k == d by {
                    if k < d {
                        assert(file_name@[d as int] == '.');
                    }
                    if k > d {
                        assert(file_name@[k] != '.');
                    }
                }
                let tail = file_name@.subrange(d + 1, file_name@.len() as int);
                assert(r == eq_ignore_ascii_case(tail, ext@));
            }
            return r;
        }
        i = i - 1;
    }
    proof {
        assert forall|k: int| is_extension_dot(file_name@, k) implies false by {
            assert(file_name@[k] != '.');
        }
    }
    false
}

} // verus!
