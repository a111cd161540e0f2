use vstd::prelude::*;

verus! {

/// The index of the last `c` in `s`, or -1 when `s` holds none.
pub open spec fn last_index_of(s: Seq<char>, c: char) -> int
    decreases s.len(),
{
    if s.len() == 0 {
        -1
    } else if s.last() == c {
        s.len() - 1
    } else {
        last_index_of(s.drop_last(), c)
    }
}

/// The last component of a `/` separated path.
pub open spec fn file_name(path: Seq<char>) -> Seq<char> {
    path.skip(last_index_of(path, '/') + 1)
}

/// The extension of a path: the non-empty text after the last `.` of its
/// file name, where that `.` is not the name's first character.
pub open spec fn extension_of(path: Seq<char>) -> Option<Seq<char>> {
    let name = file_name(path);
    let d = last_index_of(name, '.');
    if 0 < d && d + 1 < name.len() {
        Some(name.skip(d + 1))
    } else {
        None
    }
}

proof fn lemma_last_index(s: Seq<char>, c: char, j: int)
    requires
        j == -1 || (0 <= j < s.len() && s[j] == c),
        forall|k: int| j < k < s.len() ==> s[k] != c,
    ensures
        last_index_of(s, c) == j,
    decreases s.len(),
{
    if s.len() > 0 {
        if s.last() != c {
            lemma_last_index(s.drop_last(), c, j);
        }
    }
}

/// The index of the last `c` at or after `lo`, if any.
fn rfind_from(s: &str, lo: usize, c: char) -> (r: Option<usize>)
    requires
        lo <= s@.len(),
    ensures
        r is None ==> last_index_of(s@.skip(lo as int), c) == -1,
        r matches Some(j) ==> lo <= j < s@.len() && last_index_of(s@.skip(lo as int), c) == j - lo,
{
    let n = s.unicode_len();
    let mut i: usize = n;
    while i > lo
        invariant
            lo <= i <= n,
            n == s@.len(),
            forall|k: int| i <= k < n ==> s@[k] != c,
        decreases i,
    {
        if s.get_char(i - 1) == c {
            proof {
                lemma_last_index(s@.skip(lo as int), c, i - 1 - lo);
            }
            return Some(i - 1);
        }
        i = i - 1;
    }
    proof {
        lemma_last_index(s@.skip(lo as int), c, -1);
    }
    None
}

/// The extension of a path, as `extension_of` describes it.
pub fn extension(path: &str) -> (r: Option<String>)
    ensures
        match r {
            None => extension_of(path@) is None,
            Some(e) => extension_of(path@) == Some(e@),
        },
{
    let n = path.unicode_len();
    let start: usize = match rfind_from(path, 0, '/') {
        None => 0,
        Some(j) => j + 1,
    };
    assert(path@.skip(0) =~= path@);
    let ghost name = file_name(path@);
    assert(name =~= path@.skip(start as int));
    match rfind_from(path, start, '.') {
        None => None,
        Some(d) => {
            if d > start && d + 1 < n {
                let e = String::from_str(path.substring_char(d + 1, n));
                assert(e@ =~= name.skip(d - start + 1));
                Some(e)
            } else {
                None
            }
        },
    }
}

} // verus!
