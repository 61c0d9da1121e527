//! Character-level helpers: whitespace trimming, affix stripping and splitting.
use vstd::prelude::*;

verus! {

/// Whether `c` is a Unicode `White_Space` character (what `char::is_whitespace` accepts).
pub open spec fn is_ws(c: char) -> bool {
    let u = c as u32;
    (9 <= u && u <= 13) || u == 32 || u == 0x85 || u == 0xA0 || u == 0x1680 || (0x2000 <= u
        && u <= 0x200A) || u == 0x2028 || u == 0x2029 || u == 0x202F || u == 0x205F || u == 0x3000
}

/// `s` without its leading whitespace.
pub open spec fn trim_start(s: Seq<char>) -> Seq<char>
    decreases s.len(),
{
    if s.len() > 0 && is_ws(s[0]) {
        trim_start(s.drop_first())
    } else {
        s
    }
}

/// `s` without its trailing whitespace.
pub open spec fn trim_end(s: Seq<char>) -> Seq<char>
    decreases s.len(),
{
    if s.len() > 0 && is_ws(s.last()) {
        trim_end(s.drop_last())
    } else {
        s
    }
}

/// `s` without whitespace at either end.
pub open spec fn trim(s: Seq<char>) -> Seq<char> {
    trim_end(trim_start(s))
}

/// `s` with every trailing `h` removed.
pub open spec fn strip_h_suffix(s: Seq<char>) -> Seq<char>
    decreases s.len(),
{
    if s.len() > 0 && s.last() == 'h' {
        strip_h_suffix(s.drop_last())
    } else {
        s
    }
}

/// `s` with every leading `0x` removed.
pub open spec fn strip_0x_prefix(s: Seq<char>) -> Seq<char>
    decreases s.len(),
{
    if s.len() >= 2 && s[0] == '0' && s[1] == 'x' {
        strip_0x_prefix(s.subrange(2, s.len() as int))
    } else {
        s
    }
}

/// The pieces of `s` between occurrences of `sep`; always at least one piece.
pub open spec fn split_on(s: Seq<char>, sep: char) -> Seq<Seq<char>>
    decreases s.len(),
{
    if s.len() == 0 {
        seq![Seq::empty()]
    } else {
        let prev = split_on(s.drop_last(), sep);
        if s.last() == sep {
            prev.push(Seq::empty())
        } else {
            prev.update(prev.len() - 1, prev.last().push(s.last()))
        }
    }
}

/// Relies on `str::chars` collected into a `Vec`: the characters of `s`, in order.
#[verifier::external_body]
pub(crate) fn chars_of(s: &str) -> (r: Vec<char>)
    ensures
        r@ == s@,
{
    s.chars().collect()
}

/// Relies on `String: FromIterator<&char>`: the string made of the characters of `v`, in order.
#[verifier::external_body]
pub(crate) fn string_of(v: &Vec<char>) -> (r: String)
    ensures
        r@ == v@,
{
    v.iter().collect()
}

pub fn is_ws_char(c: char) -> (r: bool)
    ensures
        r == is_ws(c),
{
    let u = c as u32;
    (9 <= u && u <= 13) || u == 32 || u == 0x85 || u == 0xA0 || u == 0x1680 || (0x2000 <= u
        && u <= 0x200A) || u == 0x2028 || u == 0x2029 || u == 0x202F || u == 0x205F || u == 0x3000
}

/// The characters of `s` from `lo` up to `hi`.
pub fn copy_range(s: &Vec<char>, lo: usize, hi: usize) -> (r: Vec<char>)
    requires
        lo <= hi <= s.len(),
    ensures
        r@ == s@.subrange(lo as int, hi as int),
{
    let mut r: Vec<char> = Vec::new();
    let mut i: usize = lo;
    while i < hi
        invariant
            lo <= i <= hi <= s.len(),
            r@ == s@.subrange(lo as int, i as int),
        decreases hi - i,
    {
        r.push(s[i]);
        i = i + 1;
        assert(r@ =~= s@.subrange(lo as int, i as int));
    }
    r
}

pub fn trim_chars(s: &Vec<char>) -> (r: Vec<char>)
    ensures
        r@ == trim(s@),
{
    let n = s.len();
    let mut i: usize = 0;
    assert(s@.subrange(0, n as int) =~= s@);
    while i < n && is_ws_char(s[i])
        invariant
            i <= n == s.len(),
            trim_start(s@) == trim_start(s@.subrange(i as int, n as int)),
        decreases n - i,
    {
        assert(s@.subrange(i as int, n as int).drop_first() =~= s@.subrange(i + 1, n as int));
        i = i + 1;
    }
    assert(trim_start(s@) == s@.subrange(i as int, n as int));
    let mut j: usize = n;
    while j > i && is_ws_char(s[j - 1])
        invariant
            i <= j <= n == s.len(),
            trim(s@) == trim_end(s@.subrange(i as int, j as int)),
        decreases j,
    {
        assert(s@.subrange(i as int, j as int).drop_last() =~= s@.subrange(i as int, j - 1));
        j = j - 1;
    }
    copy_range(s, i, j)
}

pub fn strip_h_suffix_chars(s: &Vec<char>) -> (r: Vec<char>)
    ensures
        r@ == strip_h_suffix(s@),
{
    let mut j: usize = s.len();
    assert(s@.subrange(0, j as int) =~= s@);
    while j > 0 && s[j - 1] == 'h'
        invariant
            j <= s.len(),
            strip_h_suffix(s@) == strip_h_suffix(s@.subrange(0, j as int)),
        decreases j,
    {
        assert(s@.subrange(0, j as int).drop_last() =~= s@.subrange(0, j - 1));
        j = j - 1;
    }
    copy_range(s, 0, j)
}

pub fn strip_0x_prefix_chars(s: &Vec<char>) -> (r: Vec<char>)
    ensures
        r@ == strip_0x_prefix(s@),
{
    let n = s.len();
    let mut i: usize = 0;
    assert(s@.subrange(0, n as int) =~= s@);
    while n - i >= 2 && s[i] == '0' && s[i + 1] == 'x'
        invariant
            i <= n == s.len(),
            strip_0x_prefix(s@) == strip_0x_prefix(s@.subrange(i as int, n as int)),
        decreases n - i,
    {
        let ghost sub = s@.subrange(i as int, n as int);
        assert(sub.subrange(2, sub.len() as int) =~= s@.subrange(i + 2, n as int));
        i = i + 2;
    }
    copy_range(s, i, n)
}

/// The pieces of `s` between occurrences of `sep`.
pub fn split_chars(s: &Vec<char>, sep: char) -> (r: Vec<Vec<char>>)
    ensures
        r.len() == split_on(s@, sep).len(),
        forall|k: int| 0 <= k < r.len() ==> #[trigger] r[k]@ == split_on(s@, sep)[k],
{
    let mut done: Vec<Vec<char>> = Vec::new();
    let mut cur: Vec<char> = Vec::new();
    let mut i: usize = 0;
    assert(s@.subrange(0, 0) =~= Seq::<char>::empty());
    while i < s.len()
        invariant
            i <= s.len(),
            split_on(s@.subrange(0, i as int), sep).len() == done.len() + 1,
            forall|k: int|
                0 <= k < done.len() ==> #[trigger] done[k]@ == split_on(
                    s@.subrange(0, i as int),
                    sep,
                )[k],
            cur@ == split_on(s@.subrange(0, i as int), sep).last(),
        decreases s.len() - i,
    {
        let ghost pre = s@.subrange(0, i as int);
        assert(s@.subrange(0, i + 1).drop_last() =~= pre);
        let c = s[i];
        if c == sep {
            done.push(cur);
            cur = Vec::new();
        } else {
            cur.push(c);
        }
        i = i + 1;
    }
    assert(s@.subrange(0, s.len() as int) =~= s@);
    done.push(cur);
    done
}

} // verus!
