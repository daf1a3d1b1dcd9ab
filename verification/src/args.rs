//! Command-line event arguments of the form `title @ timestamp`.

use vstd::prelude::*;
use vstd::string::StrSliceExecFns;

verus! {

/// Why an event argument was refused.
#[derive(Clone, Copy, Debug, PartialEq, Eq, Structural)]
pub enum ArgError {
    /// The argument has no `@` between the title and the timestamp.
    MissingAt,
}

/// The characters with the Unicode `White_Space` property, which `char::is_whitespace`
/// and `str::trim` go by.
pub open spec fn is_white_space(c: char) -> bool {
    let n = c as u32;
    ||| 0x9 <= n <= 0xd
    ||| n == 0x20
    ||| n == 0x85
    ||| n == 0xa0
    ||| n == 0x1680
    ||| 0x2000 <= n <= 0x200a
    ||| n == 0x2028
    ||| n == 0x2029
    ||| n == 0x202f
    ||| n == 0x205f
    ||| n == 0x3000
}

/// `s` without its leading white space.
pub open spec fn trim_start(s: Seq<char>) -> Seq<char>
    decreases s.len(),
{
    if s.len() > 0 && is_white_space(s[0]) {
        trim_start(s.drop_first())
    } else {
        s
    }
}

/// `s` without its trailing white space.
pub open spec fn trim_end(s: Seq<char>) -> Seq<char>
    decreases s.len(),
{
    if s.len() > 0 && is_white_space(s.last()) {
        trim_end(s.drop_last())
    } else {
        s
    }
}

/// `s` without its leading and trailing white space, as `str::trim` gives it.
pub open spec fn trim(s: Seq<char>) -> Seq<char> {
    trim_end(trim_start(s))
}

/// The index of the last `c` in `s`, or -1 when `s` has none.
pub open spec fn last_index_of(s: Seq<char>, c: char) -> int
    decreases s.len(),
{
    if s.len() == 0 {
        -1
    } else if s.last() == c {
        s.len() - 1
    } else {
        last_index_of(s.drop_last(), c)
    }
}

/// Whether `c` has the Unicode `White_Space` property.
pub fn is_white_space_char(c: char) -> (r: bool)
    ensures
        r == is_white_space(c),
{
    let n = c as u32;
    (0x9 <= n && n <= 0xd) || n == 0x20 || n == 0x85 || n == 0xa0 || n == 0x1680 || (0x2000 <= n
        && n <= 0x200a) || n == 0x2028 || n == 0x2029 || n == 0x202f || n == 0x205f || n == 0x3000
}

/// Leading white space of length `k` is what `trim_start` removes.
pub proof fn lemma_trim_start_skip(s: Seq<char>, k: int)
    requires
        0 <= k <= s.len(),
        forall|j: int| 0 <= j < k ==> is_white_space(#[trigger] s[j]),
        k == s.len() || !is_white_space(s[k]),
    ensures
        trim_start(s) == s.skip(k),
    decreases k,
{
    if k == 0 {
        assert(s.skip(0) =~= s);
    } else {
        let t = s.drop_first();
        assert forall|j: int| 0 <= j < k - 1 implies is_white_space(#[trigger] t[j]) by {
            assert(t[j] == s[j + 1]);
        }
        assert(is_white_space(s[0]));
        lemma_trim_start_skip(t, k - 1);
        assert(t.skip(k - 1) =~= s.skip(k));
    }
}

/// Trailing white space from index `m` on is what `trim_end` removes.
pub proof fn lemma_trim_end_take(s: Seq<char>, m: int)
    requires
        0 <= m <= s.len(),
        forall|j: int| m <= j < s.len() ==> is_white_space(#[trigger] s[j]),
        m == 0 || !is_white_space(s[m - 1]),
    ensures
        trim_end(s) == s.take(m),
    decreases s.len() - m,
{
    if m == s.len() {
        assert(s.take(m) =~= s);
    } else {
        let t = s.drop_last();
        assert(is_white_space(s[s.len() - 1]));
        assert forall|j: int| m <= j < t.len() implies is_white_space(#[trigger] t[j]) by {
            assert(t[j] == s[j]);
        }
        if m > 0 {
            assert(t[m - 1] == s[m - 1]);
        }
        lemma_trim_end_take(t, m);
        assert(t.take(m) =~= s.take(m));
    }
}

/// `last_index_of` is the index of the last occurrence.
pub proof fn lemma_last_index_at(s: Seq<char>, c: char, i: int)
    requires
        -1 <= i < s.len(),
        i >= 0 ==> s[i] == c,
        forall|j: int| i < j < s.len() ==> s[j] != c,
    ensures
        last_index_of(s, c) == i,
    decreases s.len(),
{
    if s.len() > 0 && i < s.len() - 1 {
        let t = s.drop_last();
        assert(s[s.len() - 1] != c);
        assert forall|j: int| i < j < t.len() implies t[j] != c by {
            assert(t[j] == s[j]);
        }
        if i >= 0 {
            assert(t[i] == s[i]);
        }
        lemma_last_index_at(t, c, i);
    }
}

/// The characters `start..end` of `text`, without leading and trailing white space.
fn trimmed(text: &str, start: usize, end: usize) -> (r: String)
    requires
        start <= end <= text@.len(),
    ensures
        r@ == trim(text@.subrange(start as int, end as int)),
{
    let ghost s = text@.subrange(start as int, end as int);
    let mut lo = start;
    while lo < end && is_white_space_char(text.get_char(lo))
        invariant
            start <= lo <= end <= text@.len(),
            forall|j: int| start <= j < lo ==> is_white_space(#[trigger] text@[j]),
        decreases end - lo,
    {
        lo = lo + 1;
    }
    proof {
        assert forall|j: int| 0 <= j < lo - start implies is_white_space(#[trigger] s[j]) by {
            assert(s[j] == text@[start + j]);
        }
        if lo < end {
            assert(s[lo - start] == text@[lo as int]);
        }
        lemma_trim_start_skip(s, lo - start);
    }
    let ghost u = s.skip(lo - start);
    let mut hi = end;
    while hi > lo && is_white_space_char(text.get_char(hi - 1))
        invariant
            start <= lo <= hi <= end <= text@.len(),
            forall|j: int| hi <= j < end ==> is_white_space(#[trigger] text@[j]),
        decreases hi - lo,
    {
        hi = hi - 1;
    }
    proof {
        assert forall|j: int| hi - lo <= j < u.len() implies is_white_space(#[trigger] u[j]) by {
            assert(u[j] == text@[lo + j]);
        }
        if hi > lo {
            assert(u[hi - lo - 1] == text@[hi - 1]);
        }
        lemma_trim_end_take(u, hi - lo);
        assert(u.take(hi - lo) =~= text@.subrange(lo as int, hi as int));
    }
    text.substring_char(lo, hi).to_owned()
}

/// Splits an event argument `title @ timestamp` at its last `@` into the title and
/// the timestamp text, each without surrounding white space.
pub fn split_event_arg(text: &str) -> (r: Result<(String, String), ArgError>)
    ensures
        last_index_of(text@, '@') < 0 ==> r == Err::<(String, String), ArgError>(ArgError::MissingAt),
        last_index_of(text@, '@') >= 0 ==> (r matches Ok((label, time)) && label@ == trim(
            text@.take(last_index_of(text@, '@')),
        ) && time@ == trim(text@.skip(last_index_of(text@, '@') + 1))),
{
    let n = text.unicode_len();
    let mut i = n;
    while i > 0 && text.get_char(i - 1) != '@'
        invariant
            i <= n == text@.len(),
            forall|j: int| i <= j < n ==> text@[j] != '@',
        decreases i,
    {
        i = i - 1;
    }
    if i == 0 {
        proof {
            lemma_last_index_at(text@, '@', -1);
        }
        return Err(ArgError::MissingAt);
    }
    let at = i - 1;
    proof {
        lemma_last_index_at(text@, '@', at as int);
        assert(text@.subrange(0, at as int) =~= text@.take(at as int));
        assert(text@.subrange(at + 1, n as int) =~= text@.skip(at + 1));
    }
    let label = trimmed(text, 0, at);
    let time = trimmed(text, at + 1, n);
    Ok((label, time))
}

} // verus!
