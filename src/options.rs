use vstd::prelude::*;
use crate::error::ConfigError;

verus! {

/// How many files are reported when no number is given.
pub const NUM_FILES: usize = 5;

pub open spec fn is_digit(c: char) -> bool {
    '0' <= c && c <= '9'
}

pub open spec fn digit_value(c: char) -> nat {
    (c as nat - '0' as nat) as nat
}

/// The number written by a sequence of decimal digits.
pub open spec fn digits_value(s: Seq<char>) -> nat
    decreases s.len(),
{
    if s.len() == 0 {
        0
    } else {
        digits_value(s.drop_last()) * 10 + digit_value(s.last())
    }
}

/// The digits of a count: the text without one leading `+`.
pub open spec fn count_digits(s: Seq<char>) -> Seq<char> {
    if s.len() > 0 && s[0] == '+' {
        s.drop_first()
    } else {
        s
    }
}

/// The count that `s` writes: an optional `+` and at least one decimal
/// digit, with a value that fits in `usize`.
pub open spec fn count_of(s: Seq<char>) -> Option<usize> {
    let d = count_digits(s);
    if d.len() > 0 && (forall|i: int| 0 <= i < d.len() ==> is_digit(#[trigger] d[i]))
        && digits_value(d) <= usize::MAX {
        Some(digits_value(d) as usize)
    } else {
        None
    }
}

/// The pieces of `s` between commas, empty pieces included.
pub open spec fn split_commas(s: Seq<char>) -> Seq<Seq<char>>
    decreases s.len(),
{
    if s.len() == 0 {
        seq![Seq::empty()]
    } else if s.last() == ',' {
        split_commas(s.drop_last()).push(Seq::empty())
    } else {
        let p = split_commas(s.drop_last());
        p.update(p.len() - 1, p.last().push(s.last()))
    }
}

pub open spec fn strings_view(v: Seq<String>) -> Seq<Seq<char>> {
    v.map_values(|x: String| x@)
}

proof fn lemma_split_nonempty(s: Seq<char>)
    ensures
        split_commas(s).len() >= 1,
    decreases s.len(),
{
    if s.len() > 0 {
        lemma_split_nonempty(s.drop_last());
    }
}

/// A prefix of digits never writes more than the whole.
proof fn lemma_digits_prefix(s: Seq<char>, i: int)
    requires
        0 <= i <= s.len(),
    ensures
        digits_value(s.take(i)) <= digits_value(s),
    decreases s.len(),
{
    if i < s.len() {
        assert(s.take(i) =~= s.drop_last().take(i));
        lemma_digits_prefix(s.drop_last(), i);
    } else {
        assert(s.take(i) =~= s);
    }
}

/// Reads a count written as `count_of` describes.
pub fn parse_count(s: &str) -> (r: Option<usize>)
    ensures
        r == count_of(s@),
{
    let n = s.unicode_len();
    let ghost d = count_digits(s@);
    let mut i: usize = 0;
    if n > 0 && s.get_char(0) == '+' {
        i = 1;
    }
    let start = i;
    assert(d =~= s@.skip(start as int));
    if i == n {
        return None;
    }
    let mut v: usize = 0;
    while i < n
        invariant
            start <= i <= n,
            n == s@.len(),
            d =~= s@.skip(start as int),
            d == count_digits(s@),
            v == digits_value(d.take(i - start)),
            forall|k: int| 0 <= k < i - start ==> is_digit(#[trigger] d[k]),
        decreases n - i,
    {
        let c = s.get_char(i);
        assert(c == d[i - start]);
        if c < '0' || c > '9' {
            assert(!is_digit(d[i - start]));
            assert(count_of(s@) is None);
            return None;
        }
        let dv: usize = (c as u32 - '0' as u32) as usize;
        assert(d.take(i - start + 1).drop_last() =~= d.take(i - start));
        assert(d.take(i - start + 1).last() == c);
        assert(dv == digit_value(c));
        assert(digits_value(d.take(i - start + 1)) == v * 10 + dv);
        if v > (usize::MAX - dv) / 10 {
            proof {
                assert(v * 10 + dv > usize::MAX) by (nonlinear_arith)
                    requires
                        v > (usize::MAX - dv) / 10,
                        dv <= 9,
                ;
                lemma_digits_prefix(d, i - start + 1);
            }
            return None;
        }
        assert(v * 10 + dv <= usize::MAX) by (nonlinear_arith)
            requires
                v <= (usize::MAX - dv) / 10,
                dv <= 9,
        ;
        v = v * 10 + dv;
        i = i + 1;
    }
    assert(d.take(n - start) =~= d);
    Some(v)
}

/// Splits a comma separated list of patterns.
pub fn split_patterns(s: &str) -> (r: Vec<String>)
    ensures
        strings_view(r@) == split_commas(s@),
{
    let n = s.unicode_len();
    let mut pieces: Vec<String> = Vec::new();
    let mut start: usize = 0;
    let mut i: usize = 0;
    assert(s@.take(0) =~= Seq::<char>::empty());
    assert(split_commas(Seq::<char>::empty()) =~= seq![Seq::<char>::empty()]);
    assert(s@.subrange(0, 0) =~= Seq::<char>::empty());
    while i < n
        invariant
            start <= i <= n,
            n == s@.len(),
            split_commas(s@.take(i as int)) =~= strings_view(pieces@).push(
                s@.subrange(start as int, i as int),
            ),
        decreases n - i,
    {
        let c = s.get_char(i);
        let ghost prev = s@.take(i as int);
        assert(s@.take(i + 1).drop_last() =~= prev);
        assert(s@.take(i + 1).last() == c);
        if c == ',' {
            let piece = String::from_str(s.substring_char(start, i));
            pieces.push(piece);
            start = i + 1;
            assert(strings_view(pieces@) =~= split_commas(prev));
            assert(s@.subrange(start as int, i + 1) =~= Seq::<char>::empty());
        } else {
            proof {
                lemma_split_nonempty(prev);
            }
            assert(s@.subrange(start as int, i + 1) =~= s@.subrange(start as int, i as int).push(c));
            assert(split_commas(s@.take(i + 1)) =~= strings_view(pieces@).push(
                s@.subrange(start as int, i + 1),
            ));
        }
        i = i + 1;
    }
    let piece = String::from_str(s.substring_char(start, n));
    pieces.push(piece);
    assert(s@.take(n as int) =~= s@);
    assert(strings_view(pieces@) =~= split_commas(s@));
    pieces
}

/// The configuration of one run.
pub struct Options {
    /// How many files (and extensions) to report.
    pub nums: usize,
    /// The glob patterns a path must match, if any were given.
    pub glob: Option<Vec<String>>,
    /// True when the summary by extension is left out.
    pub no_ext: bool,
    /// True to report the most recently accessed files, false for the oldest.
    pub recent: bool,
}

impl Options {
    /// Builds the configuration from the raw values of the command line:
    /// the text of `-n`, the text of `-g`, and the two flags.
    pub fn from_args(nums: Option<&str>, glob: Option<&str>, no_ext: bool, oldest: bool) -> (r:
        Result<Options, ConfigError>)
        ensures
            match nums {
                None => r is Ok,
                Some(t) => (r is Err) == (count_of(t@) is None),
            },
            r matches Err(e) ==> (nums matches Some(t) && e matches ConfigError::InvalidNumberOfFiles(
                m,
            ) && m@ == t@),
            r matches Ok(o) ==> {
                &&& o.nums == match nums {
                    None => NUM_FILES,
                    Some(t) => count_of(t@).unwrap(),
                }
                &&& o.glob is Some == glob is Some
                &&& (glob matches Some(g) ==> strings_view(o.glob.unwrap()@) == split_commas(g@))
                &&& o.no_ext == no_ext
                &&& o.recent == !oldest
            },
    {
        let n = match nums {
            None => NUM_FILES,
            Some(t) => match parse_count(t) {
                Some(v) => v,
                None => {
                    return Err(ConfigError::InvalidNumberOfFiles(String::from_str(t)));
                },
            },
        };
        let g = match glob {
            None => None,
            Some(t) => Some(split_patterns(t)),
        };
        Ok(Options { nums: n, glob: g, no_ext, recent: !oldest })
    }
}

} // verus!
