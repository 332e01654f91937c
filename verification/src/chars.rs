//! Character-sequence utilities shared by the whole pipeline.
//!
//! All text in the engine is carried as `Vec<char>`, viewed as `Seq<char>`.
//! Whitespace here is the ASCII kind that template sources use: space, tab,
//! carriage return and line feed.

use vstd::prelude::*;

verus! {

/// The whitespace characters recognised by the trimming passes.
pub open spec fn is_space(c: char) -> bool {
    c == ' ' || c == '\t' || c == '\n' || c == '\r'
}

/// Exec test for [`is_space`].
pub fn is_space_char(c: char) -> (b: bool)
    ensures
        b == is_space(c),
{
    c == ' ' || c == '\t' || c == '\n' || c == '\r'
}

/// `s` with its leading whitespace removed.
pub open spec fn trim_start_spec(s: Seq<char>) -> Seq<char>
    decreases s.len(),
{
    if s.len() > 0 && is_space(s[0]) {
        trim_start_spec(s.drop_first())
    } else {
        s
    }
}

/// `s` with its trailing whitespace removed.
pub open spec fn trim_end_spec(s: Seq<char>) -> Seq<char>
    decreases s.len(),
{
    if s.len() > 0 && is_space(s[s.len() - 1]) {
        trim_end_spec(s.drop_last())
    } else {
        s
    }
}

/// `s` with whitespace removed on both sides.
pub open spec fn trim_spec(s: Seq<char>) -> Seq<char> {
    trim_end_spec(trim_start_spec(s))
}

/// The number of leading characters of `s` satisfying `is_space`.
pub open spec fn leading_spaces(s: Seq<char>) -> int
    decreases s.len(),
{
    if s.len() > 0 && is_space(s[0]) {
        1 + leading_spaces(s.drop_first())
    } else {
        0
    }
}

/// The number of leading `' '` characters of `s` (blanks only, no tabs).
pub open spec fn leading_blanks(s: Seq<char>) -> int
    decreases s.len(),
{
    if s.len() > 0 && s[0] == ' ' {
        1 + leading_blanks(s.drop_first())
    } else {
        0
    }
}

pub proof fn lemma_leading_spaces_bounds(s: Seq<char>)
    ensures
        0 <= leading_spaces(s) <= s.len(),
        forall|i: int| 0 <= i < leading_spaces(s) ==> is_space(s[i]),
        leading_spaces(s) < s.len() ==> !is_space(s[leading_spaces(s)]),
        trim_start_spec(s) == s.subrange(leading_spaces(s), s.len() as int),
    decreases s.len(),
{
    if s.len() > 0 && is_space(s[0]) {
        let d = s.drop_first();
        lemma_leading_spaces_bounds(d);
        assert forall|i: int| 0 <= i < leading_spaces(s) implies is_space(s[i]) by {
            if i > 0 {
                assert(s[i] == d[i - 1]);
            }
        }
        if leading_spaces(s) < s.len() {
            assert(s[leading_spaces(s)] == d[leading_spaces(d)]);
        }
        assert(trim_start_spec(s) == trim_start_spec(d));
        assert(d.subrange(leading_spaces(d), d.len() as int) =~= s.subrange(
            leading_spaces(s),
            s.len() as int,
        ));
    } else {
        assert(s.subrange(0, s.len() as int) =~= s);
    }
}

pub proof fn lemma_leading_blanks_bounds(s: Seq<char>)
    ensures
        0 <= leading_blanks(s) <= s.len(),
        forall|i: int| 0 <= i < leading_blanks(s) ==> s[i] == ' ',
        leading_blanks(s) < s.len() ==> s[leading_blanks(s)] != ' ',
    decreases s.len(),
{
    if s.len() > 0 && s[0] == ' ' {
        let d = s.drop_first();
        lemma_leading_blanks_bounds(d);
        assert forall|i: int| 0 <= i < leading_blanks(s) implies s[i] == ' ' by {
            if i > 0 {
                assert(s[i] == d[i - 1]);
            }
        }
        if leading_blanks(s) < s.len() {
            assert(s[leading_blanks(s)] == d[leading_blanks(d)]);
        }
    }
}

/// Number of trailing whitespace characters, so that
/// `trim_end_spec(s) == s.take(s.len() - trailing_spaces(s))`.
pub open spec fn trailing_spaces(s: Seq<char>) -> int
    decreases s.len(),
{
    if s.len() > 0 && is_space(s[s.len() - 1]) {
        1 + trailing_spaces(s.drop_last())
    } else {
        0
    }
}

pub proof fn lemma_trailing_spaces_bounds(s: Seq<char>)
    ensures
        0 <= trailing_spaces(s) <= s.len(),
        forall|i: int| s.len() - trailing_spaces(s) <= i < s.len() ==> is_space(s[i]),
        trailing_spaces(s) < s.len() ==> !is_space(s[s.len() - trailing_spaces(s) - 1]),
        trim_end_spec(s) == s.subrange(0, s.len() - trailing_spaces(s)),
    decreases s.len(),
{
    if s.len() > 0 && is_space(s[s.len() - 1]) {
        let d = s.drop_last();
        lemma_trailing_spaces_bounds(d);
        assert forall|i: int| s.len() - trailing_spaces(s) <= i < s.len() implies is_space(
            s[i],
        ) by {
            if i < s.len() - 1 {
                assert(s[i] == d[i]);
            }
        }
        if trailing_spaces(s) < s.len() {
            assert(s[s.len() - trailing_spaces(s) - 1] == d[d.len() - trailing_spaces(d) - 1]);
        }
        assert(trim_end_spec(s) == trim_end_spec(d));
        assert(d.subrange(0, d.len() - trailing_spaces(d)) =~= s.subrange(
            0,
            s.len() - trailing_spaces(s),
        ));
    } else {
        assert(s.subrange(0, s.len() as int) =~= s);
    }
}

/// Collects the characters of a `&str` into a vector, in order.
pub fn to_chars(s: &str) -> (r: Vec<char>)
    ensures
        r@ == s@,
{
    let n = s.unicode_len();
    let mut r: Vec<char> = Vec::new();
    let mut i: usize = 0;
    while i < n
        invariant
            n == s@.len(),
            i <= n,
            r@ == s@.subrange(0, i as int),
        decreases n - i,
    {
        r.push(s.get_char(i));
        i = i + 1;
        proof {
            assert(r@ =~= s@.subrange(0, i as int));
        }
    }
    proof {
        assert(r@ =~= s@);
    }
    r
}

/// Builds a `String` holding exactly the characters of `v`.
///
/// Relies on `String`'s `FromIterator<char>` implementation: collecting an
/// iterator of characters concatenates them into a string in order.
#[verifier::external_body]
pub fn chars_to_string(v: &[char]) -> (r: String)
    ensures
        r@ == v@,
{
    v.iter().collect()
}

/// Copies `v[from..to]` into a fresh vector.
pub fn subvec(v: &[char], from: usize, to: usize) -> (r: Vec<char>)
    requires
        from <= to <= v@.len(),
    ensures
        r@ == v@.subrange(from as int, to as int),
{
    let mut r: Vec<char> = Vec::new();
    let mut i: usize = from;
    while i < to
        invariant
            from <= i <= to <= v@.len(),
            r@ == v@.subrange(from as int, i as int),
        decreases to - i,
    {
        r.push(v[i]);
        i = i + 1;
        proof {
            assert(r@ =~= v@.subrange(from as int, i as int));
        }
    }
    r
}

/// Exec count of leading whitespace.
pub fn count_leading_spaces(v: &[char]) -> (k: usize)
    ensures
        k as int == leading_spaces(v@),
{
    let n = v.len();
    let mut i: usize = 0;
    proof {
        assert(v@.subrange(0, n as int) =~= v@);
    }
    while i < n
        invariant
            i <= n,
            n == v@.len(),
            leading_spaces(v@) == i + leading_spaces(v@.subrange(i as int, n as int)),
        decreases n - i,
    {
        proof {
            assert(v@.subrange(i as int, n as int).len() > 0);
            assert(v@.subrange(i as int, n as int)[0] == v@[i as int]);
        }
        if !is_space_char(v[i]) {
            proof {
                assert(leading_spaces(v@.subrange(i as int, n as int)) == 0);
            }
            return i;
        }
        proof {
            assert(v@.subrange(i as int, n as int).drop_first() =~= v@.subrange(
                i + 1,
                n as int,
            ));
        }
        i = i + 1;
    }
    proof {
        assert(v@.subrange(i as int, n as int).len() == 0);
        assert(leading_spaces(v@.subrange(i as int, n as int)) == 0);
    }
    i
}

/// Exec count of leading `' '` characters.
pub fn count_leading_blanks(v: &[char]) -> (k: usize)
    ensures
        k as int == leading_blanks(v@),
{
    let n = v.len();
    let mut i: usize = 0;
    proof {
        assert(v@.subrange(0, n as int) =~= v@);
    }
    while i < n
        invariant
            i <= n,
            n == v@.len(),
            leading_blanks(v@) == i + leading_blanks(v@.subrange(i as int, n as int)),
        decreases n - i,
    {
        proof {
            assert(v@.subrange(i as int, n as int).len() > 0);
            assert(v@.subrange(i as int, n as int)[0] == v@[i as int]);
        }
        if v[i] != ' ' {
            proof {
                assert(leading_blanks(v@.subrange(i as int, n as int)) == 0);
            }
            return i;
        }
        proof {
            assert(v@.subrange(i as int, n as int).drop_first() =~= v@.subrange(
                i + 1,
                n as int,
            ));
        }
        i = i + 1;
    }
    proof {
        assert(v@.subrange(i as int, n as int).len() == 0);
    }
    i
}

/// Exec count of trailing whitespace.
pub fn count_trailing_spaces(v: &[char]) -> (k: usize)
    ensures
        k as int == trailing_spaces(v@),
{
    let n = v.len();
    let mut i: usize = n;
    proof {
        assert(v@.subrange(0, n as int) =~= v@);
    }
    while i > 0
        invariant
            i <= n,
            n == v@.len(),
            trailing_spaces(v@) == (n - i) + trailing_spaces(v@.subrange(0, i as int)),
        decreases i,
    {
        proof {
            assert(v@.subrange(0, i as int).len() > 0);
            assert(v@.subrange(0, i as int)[i - 1] == v@[i - 1]);
        }
        if !is_space_char(v[i - 1]) {
            proof {
                assert(trailing_spaces(v@.subrange(0, i as int)) == 0);
            }
            return n - i;
        }
        proof {
            assert(v@.subrange(0, i as int).drop_last() =~= v@.subrange(0, i - 1));
        }
        i = i - 1;
    }
    proof {
        assert(v@.subrange(0, i as int).len() == 0);
    }
    n - i
}

/// `v` with leading whitespace removed, as a fresh vector.
pub fn trim_start_chars(v: &[char]) -> (r: Vec<char>)
    ensures
        r@ == trim_start_spec(v@),
{
    let k = count_leading_spaces(v);
    proof {
        lemma_leading_spaces_bounds(v@);
    }
    subvec(v, k, v.len())
}

/// `v` with trailing whitespace removed, as a fresh vector.
pub fn trim_end_chars(v: &[char]) -> (r: Vec<char>)
    ensures
        r@ == trim_end_spec(v@),
{
    let k = count_trailing_spaces(v);
    proof {
        lemma_trailing_spaces_bounds(v@);
    }
    subvec(v, 0, v.len() - k)
}

/// `v` with whitespace removed on both sides, as a fresh vector.
pub fn trim_chars(v: &[char]) -> (r: Vec<char>)
    ensures
        r@ == trim_spec(v@),
{
    let s = trim_start_chars(v);
    trim_end_chars(s.as_slice())
}

/// Exec equality of two character sequences.
pub fn eq_chars(a: &[char], b: &[char]) -> (r: bool)
    ensures
        r == (a@ == b@),
{
    if a.len() != b.len() {
        proof {
            assert(a@.len() != b@.len());
        }
        return false;
    }
    let n = a.len();
    let mut i: usize = 0;
    while i < n
        invariant
            i <= n,
            n == a@.len() == b@.len(),
            forall|j: int| 0 <= j < i ==> a@[j] == b@[j],
        decreases n - i,
    {
        if a[i] != b[i] {
            return false;
        }
        i = i + 1;
    }
    proof {
        assert(a@ =~= b@);
    }
    true
}

/// Exec test that `p` is a prefix of `v`.
pub fn starts_with_chars(v: &[char], p: &[char]) -> (r: bool)
    ensures
        r == (v@.len() >= p@.len() && v@.subrange(0, p@.len() as int) == p@),
{
    if v.len() < p.len() {
        return false;
    }
    let head = subvec(v, 0, p.len());
    eq_chars(head.as_slice(), p)
}

/// Appends all of `src` to `dst`.
pub fn append_chars(dst: &mut Vec<char>, src: &[char])
    ensures
        final(dst)@ == old(dst)@ + src@,
{
    let mut i: usize = 0;
    while i < src.len()
        invariant
            i <= src@.len(),
            dst@ == old(dst)@ + src@.subrange(0, i as int),
        decreases src@.len() - i,
    {
        dst.push(src[i]);
        i = i + 1;
        proof {
            assert(dst@ =~= old(dst)@ + src@.subrange(0, i as int));
        }
    }
    proof {
        assert(dst@ =~= old(dst)@ + src@);
    }
}

/// The decimal digit character for `d`.
pub open spec fn digit_char(d: int) -> char {
    if d == 0 {
        '0'
    } else if d == 1 {
        '1'
    } else if d == 2 {
        '2'
    } else if d == 3 {
        '3'
    } else if d == 4 {
        '4'
    } else if d == 5 {
        '5'
    } else if d == 6 {
        '6'
    } else if d == 7 {
        '7'
    } else if d == 8 {
        '8'
    } else {
        '9'
    }
}

/// The usual decimal rendering of `n`, most significant digit first.
pub open spec fn dec_spec(n: nat) -> Seq<char>
    decreases n,
{
    if n < 10 {
        seq![digit_char(n as int)]
    } else {
        dec_spec(n / 10).push(digit_char((n % 10) as int))
    }
}

fn digit_to_char(d: usize) -> (c: char)
    requires
        d < 10,
    ensures
        c == digit_char(d as int),
{
    if d == 0 {
        '0'
    } else if d == 1 {
        '1'
    } else if d == 2 {
        '2'
    } else if d == 3 {
        '3'
    } else if d == 4 {
        '4'
    } else if d == 5 {
        '5'
    } else if d == 6 {
        '6'
    } else if d == 7 {
        '7'
    } else if d == 8 {
        '8'
    } else {
        '9'
    }
}

/// Renders `n` in decimal.
pub fn dec_chars(n: usize) -> (r: Vec<char>)
    ensures
        r@ == dec_spec(n as nat),
    decreases n,
{
    if n < 10 {
        let mut r: Vec<char> = Vec::new();
        r.push(digit_to_char(n));
        proof {
            assert(r@ =~= dec_spec(n as nat));
        }
        r
    } else {
        let mut r = dec_chars(n / 10);
        r.push(digit_to_char(n % 10));
        proof {
            assert(r@ =~= dec_spec(n as nat));
        }
        r
    }
}


/// Removing leading whitespace twice is the same as removing it once.
pub proof fn lemma_trim_start_idem(s: Seq<char>)
    ensures
        trim_start_spec(trim_start_spec(s)) == trim_start_spec(s),
    decreases s.len(),
{
    if s.len() > 0 && is_space(s[0]) {
        lemma_trim_start_idem(s.drop_first());
    }
}

/// Removing trailing whitespace twice is the same as removing it once.
pub proof fn lemma_trim_end_idem(s: Seq<char>)
    ensures
        trim_end_spec(trim_end_spec(s)) == trim_end_spec(s),
    decreases s.len(),
{
    if s.len() > 0 && is_space(s[s.len() - 1]) {
        lemma_trim_end_idem(s.drop_last());
    }
}


/// `leading_blanks` is pinned by its characteristic property.
pub proof fn lemma_leading_blanks_exact(s: Seq<char>, k: int)
    requires
        0 <= k <= s.len(),
        forall|i: int| 0 <= i < k ==> s[i] == ' ',
        k < s.len() ==> s[k] != ' ',
    ensures
        leading_blanks(s) == k,
    decreases s.len(),
{
    if s.len() > 0 && s[0] == ' ' {
        let d = s.drop_first();
        assert(k >= 1);
        assert forall|i: int| 0 <= i < k - 1 implies d[i] == ' ' by {
            assert(d[i] == s[i + 1]);
        }
        if k - 1 < d.len() {
            assert(d[k - 1] == s[k]);
        }
        lemma_leading_blanks_exact(d, k - 1);
    }
}

} // verus!
