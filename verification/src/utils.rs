//! Fuzzy comparison of object paths.
//!
//! A mod names the objects it replaces by paths that may differ from the paths
//! in the composite map in directory prefix, package prefix, letter case and a
//! few engine suffixes. Two paths denote the same object when their normalized
//! names are equal without regard to ASCII case.

use crate::text::{str_to_chars, string_from_chars};
use vstd::prelude::*;

verus! {

/// The index just behind the last `c` in `s`, or 0 where `s` holds no `c`.
pub open spec fn tail_start(s: Seq<char>, c: char) -> int
    decreases s.len(),
{
    if s.len() == 0 {
        0
    } else if s.last() == c {
        s.len() as int
    } else {
        tail_start(s.drop_last(), c)
    }
}

/// What follows the last `c` in `s`; all of `s` where it holds no `c`.
pub open spec fn after_last(s: Seq<char>, c: char) -> Seq<char> {
    s.subrange(tail_start(s, c), s.len() as int)
}

/// Whether `s` ends with `suffix`.
pub open spec fn ends_with(s: Seq<char>, suffix: Seq<char>) -> bool {
    s.len() >= suffix.len() && s.subrange(s.len() - suffix.len(), s.len() as int) == suffix
}

/// `s` without `suffix` at its end, taken off once; `s` itself where it does
/// not end with `suffix`.
pub open spec fn strip_suffix(s: Seq<char>, suffix: Seq<char>) -> Seq<char> {
    if ends_with(s, suffix) {
        s.subrange(0, s.len() - suffix.len())
    } else {
        s
    }
}

/// The engine suffixes that normalization takes off, in the order in which it
/// tries them: `_C`, `_dup`, `_lod0`, `_lod1`, `_lod2`, `_lod3`.
pub open spec fn known_suffix(n: int) -> Seq<char> {
    if n == 0 {
        seq!['_', 'C']
    } else if n == 1 {
        seq!['_', 'd', 'u', 'p']
    } else if n == 2 {
        seq!['_', 'l', 'o', 'd', '0']
    } else if n == 3 {
        seq!['_', 'l', 'o', 'd', '1']
    } else if n == 4 {
        seq!['_', 'l', 'o', 'd', '2']
    } else {
        seq!['_', 'l', 'o', 'd', '3']
    }
}

/// `s` after the first `n` known suffixes have each been tried once, in order.
pub open spec fn strip_known_suffixes(s: Seq<char>, n: int) -> Seq<char>
    decreases n,
{
    if n <= 0 {
        s
    } else {
        strip_suffix(strip_known_suffixes(s, n - 1), known_suffix(n - 1))
    }
}

/// The normalized name of an object path: what follows the last `/`, of that
/// what follows the last `.`, and of that what is left once each known suffix
/// has been taken off where present.
pub open spec fn normalized(path: Seq<char>) -> Seq<char> {
    strip_known_suffixes(after_last(after_last(path, '/'), '.'), 6)
}

/// The code of `c`, with the upper-case ASCII letters mapped to lower case.
pub open spec fn fold_ascii(c: char) -> int {
    if 65 <= c as int <= 90 {
        c as int + 32
    } else {
        c as int
    }
}

/// Equality of two texts without regard to the case of ASCII letters.
pub open spec fn eq_ignore_ascii_case(a: Seq<char>, b: Seq<char>) -> bool {
    a.len() == b.len() && forall|i: int| 0 <= i < a.len() ==> fold_ascii(a[i]) == fold_ascii(b[i])
}

/// Whether `full` and `query` denote the same object.
pub open spec fn paths_match(full: Seq<char>, query: Seq<char>) -> bool {
    eq_ignore_ascii_case(normalized(full), normalized(query))
}

/// Comparison without regard to ASCII case is reflexive and symmetric.
pub proof fn lemma_eq_ignore_ascii_case_symmetric(a: Seq<char>, b: Seq<char>)
    ensures
        eq_ignore_ascii_case(a, a),
        eq_ignore_ascii_case(a, b) == eq_ignore_ascii_case(b, a),
{
}

fn tail_start_in(chars: &[char], from: usize, c: char) -> (start: usize)
    requires
        from <= chars.len(),
    ensures
        from <= start <= chars.len(),
        start == from + tail_start(chars@.subrange(from as int, chars.len() as int), c),
{
    let mut start: usize = from;
    let mut i: usize = from;
    while i < chars.len()
        invariant
            from <= start <= i <= chars.len(),
            start == from + tail_start(chars@.subrange(from as int, i as int), c),
        decreases chars.len() - i,
    {
        assert(chars@.subrange(from as int, i + 1).drop_last() =~= chars@.subrange(
            from as int,
            i as int,
        ));
        if chars[i] == c {
            start = i + 1;
        }
        i += 1;
    }
    start
}

fn known_suffix_chars(n: usize) -> (suffix: Vec<char>)
    requires
        n < 6,
    ensures
        suffix@ == known_suffix(n as int),
{
    let mut suffix: Vec<char> = Vec::new();
    suffix.push('_');
    if n == 0 {
        suffix.push('C');
    } else if n == 1 {
        suffix.push('d');
        suffix.push('u');
        suffix.push('p');
    } else {
        suffix.push('l');
        suffix.push('o');
        suffix.push('d');
        if n == 2 {
            suffix.push('0');
        } else if n == 3 {
            suffix.push('1');
        } else if n == 4 {
            suffix.push('2');
        } else {
            suffix.push('3');
        }
    }
    assert(suffix@ =~= known_suffix(n as int));
    suffix
}

/// Whether `chars[from..to]` ends with `suffix`.
fn range_ends_with(chars: &[char], from: usize, to: usize, suffix: &[char]) -> (r: bool)
    requires
        from <= to <= chars.len(),
    ensures
        r == ends_with(chars@.subrange(from as int, to as int), suffix@),
{
    let n = suffix.len();
    if to - from < n {
        return false;
    }
    let ghost s = chars@.subrange(from as int, to as int);
    let ghost tail = s.subrange(s.len() - n, s.len() as int);
    let base = to - n;
    let mut i: usize = 0;
    while i < n
        invariant
            i <= n,
            n == suffix.len(),
            base + n == to,
            from <= base,
            to <= chars.len(),
            tail == chars@.subrange(base as int, to as int),
            forall|k: int| 0 <= k < i ==> tail[k] == suffix[k],
        decreases n - i,
    {
        if chars[base + i] != suffix[i] {
            assert(tail[i as int] != suffix[i as int]);
            return false;
        }
        i += 1;
    }
    assert(tail =~= suffix@);
    true
}

/// Reduces an object path to the bare name by which objects are compared.
pub fn normalize_object_name(path: &str) -> (name: String)
    ensures
        name@ == normalized(path@),
{
    let chars = str_to_chars(path);
    let len = chars.len();
    let after_slash = tail_start_in(chars.as_slice(), 0, '/');
    let start = tail_start_in(chars.as_slice(), after_slash, '.');
    let ghost full = chars@;
    let ghost base = after_last(after_last(full, '/'), '.');
    proof {
        assert(full.subrange(0, len as int) =~= full);
        let tail = full.subrange(after_slash as int, len as int);
        assert(tail == after_last(full, '/'));
        assert(tail.subrange(start - after_slash, tail.len() as int) =~= full.subrange(
            start as int,
            len as int,
        ));
    }
    let mut end: usize = len;
    let mut n: usize = 0;
    while n < 6
        invariant
            n <= 6,
            start <= end <= len,
            len == chars.len(),
            base == full.subrange(start as int, len as int),
            full == chars@,
            full.subrange(start as int, end as int) == strip_known_suffixes(base, n as int),
        decreases 6 - n,
    {
        let suffix = known_suffix_chars(n);
        if range_ends_with(chars.as_slice(), start, end, suffix.as_slice()) {
            let ghost cur = full.subrange(start as int, end as int);
            assert(cur.subrange(0, cur.len() - suffix.len()) =~= full.subrange(
                start as int,
                end - suffix.len(),
            ));
            end = end - suffix.len();
        }
        n += 1;
    }
    string_from_chars(chars.as_slice(), start, end)
}

fn fold_ascii_code(c: char) -> (code: u32)
    ensures
        code == fold_ascii(c),
{
    let x = c as u32;
    if 65 <= x && x <= 90 {
        x + 32
    } else {
        x
    }
}

/// Compares two texts without regard to the case of ASCII letters.
pub fn ascii_eq_ignore_case(a: &str, b: &str) -> (r: bool)
    ensures
        r == eq_ignore_ascii_case(a@, b@),
{
    let x = str_to_chars(a);
    let y = str_to_chars(b);
    if x.len() != y.len() {
        return false;
    }
    let mut i: usize = 0;
    while i < x.len()
        invariant
            i <= x.len(),
            x.len() == y.len(),
            x@ == a@,
            y@ == b@,
            forall|k: int| 0 <= k < i ==> fold_ascii(a@[k]) == fold_ascii(b@[k]),
        decreases x.len() - i,
    {
        if fold_ascii_code(x[i]) != fold_ascii_code(y[i]) {
            return false;
        }
        i += 1;
    }
    true
}

/// Tells whether a path of the composite map and a path that a mod declares
/// denote the same object.
pub fn incomplete_paths_equal(full: &str, incomplete: &str) -> (r: bool)
    ensures
        r == paths_match(full@, incomplete@),
{
    let full_name = normalize_object_name(full);
    let inc_name = normalize_object_name(incomplete);
    ascii_eq_ignore_case(full_name.as_str(), inc_name.as_str())
}

} // verus!
