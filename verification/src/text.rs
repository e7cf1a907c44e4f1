//! Character-level text handling: whitespace, trimming, searching and
//! comparing ranges of a character sequence.
use vstd::prelude::*;

verus! {

/// The Unicode `White_Space` property, the set of characters that
/// `char::is_whitespace` accepts and that `str::trim` removes.
pub open spec fn is_space(c: char) -> bool {
    let u = c as u32;
    ||| 0x9 <= u <= 0xd
    ||| u == 0x20
    ||| u == 0x85
    ||| u == 0xa0
    ||| u == 0x1680
    ||| 0x2000 <= u <= 0x200a
    ||| u == 0x2028
    ||| u == 0x2029
    ||| u == 0x202f
    ||| u == 0x205f
    ||| u == 0x3000
}

/// `s` without its leading whitespace.
pub open spec fn trim_start(s: Seq<char>) -> Seq<char>
    decreases s.len(),
{
    if s.len() > 0 && is_space(s[0]) {
        trim_start(s.drop_first())
    } else {
        s
    }
}

/// `s` without its trailing whitespace.
pub open spec fn trim_end(s: Seq<char>) -> Seq<char>
    decreases s.len(),
{
    if s.len() > 0 && is_space(s.last()) {
        trim_end(s.drop_last())
    } else {
        s
    }
}

/// `s` without whitespace at either end, as `str::trim` gives it.
pub open spec fn trim(s: Seq<char>) -> Seq<char> {
    trim_end(trim_start(s))
}

/// `s` without any leading copies of `c`.
pub open spec fn strip_start_char(s: Seq<char>, c: char) -> Seq<char>
    decreases s.len(),
{
    if s.len() > 0 && s[0] == c {
        strip_start_char(s.drop_first(), c)
    } else {
        s
    }
}

/// `s` without any trailing copies of `c`, as `str::trim_end_matches(c)` gives it.
pub open spec fn strip_end_char(s: Seq<char>, c: char) -> Seq<char>
    decreases s.len(),
{
    if s.len() > 0 && s.last() == c {
        strip_end_char(s.drop_last(), c)
    } else {
        s
    }
}

/// `s` without copies of `c` at either end, as `str::trim_matches(c)` gives it.
pub open spec fn strip_char(s: Seq<char>, c: char) -> Seq<char> {
    strip_end_char(strip_start_char(s, c), c)
}

/// The position of the first whitespace character of `s` at or after `i`.
pub open spec fn find_space_from(s: Seq<char>, i: int) -> Option<int>
    decreases s.len() - i,
{
    if i < 0 || i >= s.len() {
        None
    } else if is_space(s[i]) {
        Some(i)
    } else {
        find_space_from(s, i + 1)
    }
}

/// The position of the first occurrence of `c` in `s` at or after `i`.
pub open spec fn find_char_from(s: Seq<char>, c: char, i: int) -> Option<int>
    decreases s.len() - i,
{
    if i < 0 || i >= s.len() {
        None
    } else if s[i] == c {
        Some(i)
    } else {
        find_char_from(s, c, i + 1)
    }
}

/// Whether `s` begins with `prefix`.
pub open spec fn has_prefix(s: Seq<char>, prefix: Seq<char>) -> bool {
    prefix.len() <= s.len() && s.subrange(0, prefix.len() as int) == prefix
}

/// Whether `pat` occurs in `s` as a contiguous piece, as `str::contains` decides it.
pub open spec fn contains_seq(s: Seq<char>, pat: Seq<char>) -> bool {
    exists|i: int|
        0 <= i && i + pat.len() <= s.len() && #[trigger] s.subrange(i, i + pat.len()) == pat
}

/// Whether `c` is whitespace.
pub fn char_is_space(c: char) -> (r: bool)
    ensures
        r == is_space(c),
{
    let u = c as u32;
    (0x9 <= u && u <= 0xd) || u == 0x20 || u == 0x85 || u == 0xa0 || u == 0x1680 || (0x2000
        <= u && u <= 0x200a) || u == 0x2028 || u == 0x2029 || u == 0x202f || u == 0x205f || u
        == 0x3000
}

/// The characters of `s`, in order.
pub fn chars_of(s: &str) -> (v: Vec<char>)
    ensures
        v@ == s@,
{
    let n = s.unicode_len();
    let mut v: Vec<char> = Vec::new();
    let mut i: usize = 0;
    while i < n
        invariant
            n == s@.len(),
            i <= n,
            v@ == s@.subrange(0, i as int),
        decreases n - i,
    {
        v.push(s.get_char(i));
        i = i + 1;
        assert(v@ =~= s@.subrange(0, i as int));
    }
    assert(v@ =~= s@);
    v
}

/// The first position in `lo..hi` whose character is not whitespace, or `hi`.
pub fn skip_spaces(c: &Vec<char>, lo: usize, hi: usize) -> (r: usize)
    requires
        lo <= hi <= c@.len(),
    ensures
        lo <= r <= hi,
        trim_start(c@.subrange(lo as int, hi as int)) == c@.subrange(r as int, hi as int),
{
    let mut i = lo;
    while i < hi && char_is_space(c[i])
        invariant
            lo <= i <= hi <= c@.len(),
            trim_start(c@.subrange(lo as int, hi as int)) == trim_start(
                c@.subrange(i as int, hi as int),
            ),
        decreases hi - i,
    {
        assert(c@.subrange(i as int, hi as int).drop_first() =~= c@.subrange(
            i + 1,
            hi as int,
        ));
        i = i + 1;
    }
    i
}

/// The end of `lo..hi` once trailing whitespace is left off.
pub fn skip_spaces_back(c: &Vec<char>, lo: usize, hi: usize) -> (r: usize)
    requires
        lo <= hi <= c@.len(),
    ensures
        lo <= r <= hi,
        trim_end(c@.subrange(lo as int, hi as int)) == c@.subrange(lo as int, r as int),
{
    let mut j = hi;
    while j > lo && char_is_space(c[j - 1])
        invariant
            lo <= j <= hi <= c@.len(),
            trim_end(c@.subrange(lo as int, hi as int)) == trim_end(
                c@.subrange(lo as int, j as int),
            ),
        decreases j - lo,
    {
        assert(c@.subrange(lo as int, j as int).drop_last() =~= c@.subrange(
            lo as int,
            j - 1,
        ));
        j = j - 1;
    }
    j
}

/// The range that `trim` leaves of `lo..hi`.
pub fn trim_range(c: &Vec<char>, lo: usize, hi: usize) -> (r: (usize, usize))
    requires
        lo <= hi <= c@.len(),
    ensures
        lo <= r.0 <= r.1 <= hi,
        trim(c@.subrange(lo as int, hi as int)) == c@.subrange(r.0 as int, r.1 as int),
{
    let a = skip_spaces(c, lo, hi);
    let b = skip_spaces_back(c, a, hi);
    (a, b)
}

/// The first position in `lo..hi` whose character is not `ch`, or `hi`.
pub fn skip_char(c: &Vec<char>, lo: usize, hi: usize, ch: char) -> (r: usize)
    requires
        lo <= hi <= c@.len(),
    ensures
        lo <= r <= hi,
        strip_start_char(c@.subrange(lo as int, hi as int), ch) == c@.subrange(
            r as int,
            hi as int,
        ),
{
    let mut i = lo;
    while i < hi && c[i] == ch
        invariant
            lo <= i <= hi <= c@.len(),
            strip_start_char(c@.subrange(lo as int, hi as int), ch) == strip_start_char(
                c@.subrange(i as int, hi as int),
                ch,
            ),
        decreases hi - i,
    {
        assert(c@.subrange(i as int, hi as int).drop_first() =~= c@.subrange(
            i + 1,
            hi as int,
        ));
        i = i + 1;
    }
    i
}

/// The end of `lo..hi` once trailing copies of `ch` are left off.
pub fn skip_char_back(c: &Vec<char>, lo: usize, hi: usize, ch: char) -> (r: usize)
    requires
        lo <= hi <= c@.len(),
    ensures
        lo <= r <= hi,
        strip_end_char(c@.subrange(lo as int, hi as int), ch) == c@.subrange(
            lo as int,
            r as int,
        ),
{
    let mut j = hi;
    while j > lo && c[j - 1] == ch
        invariant
            lo <= j <= hi <= c@.len(),
            strip_end_char(c@.subrange(lo as int, hi as int), ch) == strip_end_char(
                c@.subrange(lo as int, j as int),
                ch,
            ),
        decreases j - lo,
    {
        assert(c@.subrange(lo as int, j as int).drop_last() =~= c@.subrange(
            lo as int,
            j - 1,
        ));
        j = j - 1;
    }
    j
}

/// The position of the first whitespace character in `lo..hi`.
pub fn find_space(c: &Vec<char>, lo: usize, hi: usize) -> (r: Option<usize>)
    requires
        lo <= hi <= c@.len(),
    ensures
        find_space_from(c@.subrange(lo as int, hi as int), 0) == (match r {
            Some(i) => Some(i - lo),
            None => None::<int>,
        }),
        r matches Some(i) ==> lo <= i < hi,
{
    let ghost s = c@.subrange(lo as int, hi as int);
    let mut i = lo;
    while i < hi
        invariant
            lo <= i <= hi <= c@.len(),
            s == c@.subrange(lo as int, hi as int),
            find_space_from(s, 0) == find_space_from(s, i - lo),
        decreases hi - i,
    {
        if char_is_space(c[i]) {
            return Some(i);
        }
        i = i + 1;
    }
    None
}

/// The position of the first `ch` in `lo..hi`.
pub fn find_char(c: &Vec<char>, lo: usize, hi: usize, ch: char) -> (r: Option<usize>)
    requires
        lo <= hi <= c@.len(),
    ensures
        find_char_from(c@.subrange(lo as int, hi as int), ch, 0) == (match r {
            Some(i) => Some(i - lo),
            None => None::<int>,
        }),
        r matches Some(i) ==> lo <= i < hi,
{
    let ghost s = c@.subrange(lo as int, hi as int);
    let mut i = lo;
    while i < hi
        invariant
            lo <= i <= hi <= c@.len(),
            s == c@.subrange(lo as int, hi as int),
            find_char_from(s, ch, 0) == find_char_from(s, ch, i - lo),
        decreases hi - i,
    {
        if c[i] == ch {
            return Some(i);
        }
        i = i + 1;
    }
    None
}

/// Whether the characters in `lo..hi` are exactly `k`.
pub fn range_equals(c: &Vec<char>, lo: usize, hi: usize, k: &Vec<char>) -> (r: bool)
    requires
        lo <= hi <= c@.len(),
    ensures
        r == (c@.subrange(lo as int, hi as int) == k@),
{
    if hi - lo != k.len() {
        return false;
    }
    let mut i: usize = 0;
    while i < k.len()
        invariant
            hi - lo == k@.len(),
            lo <= hi <= c@.len(),
            i <= k@.len(),
            forall|j: int| 0 <= j < i ==> c@[lo + j] == k@[j],
        decreases k@.len() - i,
    {
        if c[lo + i] != k[i] {
            assert(c@.subrange(lo as int, hi as int)[i as int] != k@[i as int]);
            return false;
        }
        i = i + 1;
    }
    assert(c@.subrange(lo as int, hi as int) =~= k@);
    true
}

/// Whether the characters of `lo..hi` begin with those of `prefix`.
pub fn range_has_prefix(c: &Vec<char>, lo: usize, hi: usize, prefix: &Vec<char>) -> (r: bool)
    requires
        lo <= hi <= c@.len(),
    ensures
        r == has_prefix(c@.subrange(lo as int, hi as int), prefix@),
{
    if prefix.len() > hi - lo {
        return false;
    }
    let r = range_equals(c, lo, lo + prefix.len(), prefix);
    assert(c@.subrange(lo as int, hi as int).subrange(0, prefix@.len() as int) =~= c@.subrange(
        lo as int,
        lo + prefix@.len(),
    ));
    r
}

} // verus!

verus! {

/// Code-point lexicographic order on character sequences, which is the order
/// `String`'s `Ord` gives (UTF-8 keeps code-point order byte by byte).
pub open spec fn seq_less(a: Seq<char>, b: Seq<char>) -> bool
    decreases a.len(),
{
    if a.len() == 0 {
        b.len() > 0
    } else if b.len() == 0 {
        false
    } else if a[0] != b[0] {
        (a[0] as int) < (b[0] as int)
    } else {
        seq_less(a.drop_first(), b.drop_first())
    }
}

/// No sequence comes before itself.
pub proof fn lemma_seq_less_irreflexive(a: Seq<char>)
    ensures
        !seq_less(a, a),
    decreases a.len(),
{
    if a.len() > 0 {
        lemma_seq_less_irreflexive(a.drop_first());
    }
}

/// The order is transitive.
pub proof fn lemma_seq_less_transitive(a: Seq<char>, b: Seq<char>, c: Seq<char>)
    requires
        seq_less(a, b),
        seq_less(b, c),
    ensures
        seq_less(a, c),
    decreases a.len(),
{
    if a.len() > 0 && b.len() > 0 && c.len() > 0 && a[0] == b[0] && b[0] == c[0] {
        lemma_seq_less_transitive(a.drop_first(), b.drop_first(), c.drop_first());
    }
}

/// Of two different sequences, one comes before the other.
pub proof fn lemma_seq_less_total(a: Seq<char>, b: Seq<char>)
    requires
        a != b,
    ensures
        seq_less(a, b) || seq_less(b, a),
    decreases a.len(),
{
    if a.len() == 0 {
        assert(b.len() > 0) by {
            if b.len() == 0 {
                assert(a =~= b);
            }
        }
    } else if b.len() == 0 {
    } else if a[0] != b[0] {
    } else {
        assert(a.drop_first() != b.drop_first()) by {
            if a.drop_first() == b.drop_first() {
                assert(a =~= seq![a[0]] + a.drop_first());
                assert(b =~= seq![b[0]] + b.drop_first());
            }
        }
        lemma_seq_less_total(a.drop_first(), b.drop_first());
    }
}

/// The code point of `c`.
pub fn char_code(c: char) -> (r: u32)
    ensures
        r as int == c as int,
{
    c as u32
}

/// Whether `a` comes before `b` in code-point lexicographic order.
pub fn chars_less(a: &Vec<char>, b: &Vec<char>) -> (r: bool)
    ensures
        r == seq_less(a@, b@),
{
    let mut i: usize = 0;
    assert(a@.skip(0) =~= a@);
    assert(b@.skip(0) =~= b@);
    while i < a.len() && i < b.len() && a[i] == b[i]
        invariant
            i <= a@.len(),
            i <= b@.len(),
            seq_less(a@, b@) == seq_less(a@.skip(i as int), b@.skip(i as int)),
        decreases a@.len() - i,
    {
        assert(a@.skip(i as int).drop_first() =~= a@.skip(i + 1));
        assert(b@.skip(i as int).drop_first() =~= b@.skip(i + 1));
        i = i + 1;
    }
    if i == a.len() {
        i < b.len()
    } else if i == b.len() {
        false
    } else {
        char_code(a[i]) < char_code(b[i])
    }
}

} // verus!

verus! {

/// Whether `pat` occurs in `s`, as `str::contains` decides it.
pub fn contains_chars(s: &Vec<char>, pat: &Vec<char>) -> (r: bool)
    ensures
        r == contains_seq(s@, pat@),
{
    if pat.len() > s.len() {
        return false;
    }
    if pat.len() == 0 {
        assert(s@.subrange(0int, 0int + pat@.len()) =~= pat@);
        return true;
    }
    let n = s.len();
    let last = n - pat.len();
    let mut i: usize = 0;
    while i <= last
        invariant
            n == s@.len(),
            1 <= pat@.len() <= s@.len(),
            last == s@.len() - pat@.len(),
            i <= last + 1,
            forall|j: int| 0 <= j < i ==> #[trigger] s@.subrange(j, j + pat@.len()) != pat@,
        decreases last + 1 - i,
    {
        assert(i + pat@.len() <= s@.len());
        if range_equals(s, i, i + pat.len(), pat) {
            return true;
        }
        i = i + 1;
    }
    false
}

} // verus!

verus! {

/// The order is the lexicographic one by code point: `a` comes before `b`
/// exactly when, after a common first part of length `k`, either `a` ends
/// and `b` goes on, or the next character of `a` has the lower code point.
pub proof fn law_seq_less_is_lexicographic(a: Seq<char>, b: Seq<char>)
    ensures
        seq_less(a, b) <==> exists|k: int|
            0 <= k <= a.len() && k <= b.len() && #[trigger] a.take(k) == b.take(k) && ((k
                == a.len() && k < b.len()) || (k < a.len() && k < b.len() && (a[k] as int) < (
            b[k] as int))),
    decreases a.len(),
{
    if a.len() == 0 || b.len() == 0 || a[0] != b[0] {
        if seq_less(a, b) {
            assert(a.take(0) =~= b.take(0));
        }
        if exists|k: int|
            0 <= k <= a.len() && k <= b.len() && #[trigger] a.take(k) == b.take(k) && ((k
                == a.len() && k < b.len()) || (k < a.len() && k < b.len() && (a[k] as int) < (
            b[k] as int))) {
            let k = choose|k: int|
                0 <= k <= a.len() && k <= b.len() && #[trigger] a.take(k) == b.take(k) && ((k
                    == a.len() && k < b.len()) || (k < a.len() && k < b.len() && (a[k] as int)
                    < (b[k] as int)));
            if k > 0 {
                assert(a.take(k)[0] == b.take(k)[0]);
            }
        }
    } else {
        let ta = a.drop_first();
        let tb = b.drop_first();
        law_seq_less_is_lexicographic(ta, tb);
        if seq_less(a, b) {
            let k = choose|k: int|
                0 <= k <= ta.len() && k <= tb.len() && #[trigger] ta.take(k) == tb.take(k) && ((k
                    == ta.len() && k < tb.len()) || (k < ta.len() && k < tb.len() && (ta[k] as int)
                    < (tb[k] as int)));
            assert(a.take(k + 1) =~= seq![a[0]] + ta.take(k));
            assert(b.take(k + 1) =~= seq![b[0]] + tb.take(k));
            if k < ta.len() {
                assert(a[k + 1] == ta[k]);
            }
            if k < tb.len() {
                assert(b[k + 1] == tb[k]);
            }
        }
        if exists|k: int|
            0 <= k <= a.len() && k <= b.len() && #[trigger] a.take(k) == b.take(k) && ((k
                == a.len() && k < b.len()) || (k < a.len() && k < b.len() && (a[k] as int) < (
            b[k] as int))) {
            let k = choose|k: int|
                0 <= k <= a.len() && k <= b.len() && #[trigger] a.take(k) == b.take(k) && ((k
                    == a.len() && k < b.len()) || (k < a.len() && k < b.len() && (a[k] as int)
                    < (b[k] as int)));
            if k == 0 {
                assert(false);
            } else {
                assert(ta.take(k - 1) =~= a.take(k).drop_first());
                assert(tb.take(k - 1) =~= b.take(k).drop_first());
                if k < a.len() {
                    assert(ta[k - 1] == a[k]);
                }
                if k < b.len() {
                    assert(tb[k - 1] == b[k]);
                }
                assert(ta.take(k - 1) == tb.take(k - 1));
            }
        }
    }
}


/// Trimming leaves alone a sequence whose ends are not whitespace.
pub proof fn lemma_trim_keeps(s: Seq<char>)
    requires
        s.len() > 0 ==> !is_space(s[0]) && !is_space(s.last()),
    ensures
        trim(s) == s,
{
}

/// The first whitespace at or after `j` in `a + b`, where `a` holds none
/// from `j` on and `b` starts with one, is where `b` starts.
pub proof fn lemma_find_space_after(a: Seq<char>, b: Seq<char>, j: int)
    requires
        0 <= j <= a.len(),
        forall|i: int| j <= i < a.len() ==> !is_space(#[trigger] a[i]),
        b.len() > 0,
        is_space(b[0]),
    ensures
        find_space_from(a + b, j) == Some(a.len() as int),
    decreases a.len() - j,
{
    if j < a.len() {
        assert((a + b)[j] == a[j]);
        lemma_find_space_after(a, b, j + 1);
    } else {
        assert((a + b)[j] == b[0]);
    }
}

/// The first `c` at or after `j` in `a + b`, where `a` holds none from `j`
/// on and `b` starts with one, is where `b` starts.
pub proof fn lemma_find_char_after(a: Seq<char>, b: Seq<char>, c: char, j: int)
    requires
        0 <= j <= a.len(),
        forall|i: int| j <= i < a.len() ==> #[trigger] a[i] != c,
        b.len() > 0,
        b[0] == c,
    ensures
        find_char_from(a + b, c, j) == Some(a.len() as int),
    decreases a.len() - j,
{
    if j < a.len() {
        assert((a + b)[j] == a[j]);
        lemma_find_char_after(a, b, c, j + 1);
    } else {
        assert((a + b)[j] == b[0]);
    }
}

/// Whether every character of `s` is whitespace.
pub open spec fn all_space(s: Seq<char>) -> bool {
    forall|i: int| 0 <= i < s.len() ==> is_space(#[trigger] s[i])
}

/// Whether every character of `s` is `c`.
pub open spec fn all_char(s: Seq<char>, c: char) -> bool {
    forall|i: int| 0 <= i < s.len() ==> #[trigger] s[i] == c
}

/// Whitespace in front, however much, does not change what trimming the
/// start gives.
pub proof fn lemma_trim_start_spaces(ws: Seq<char>, s: Seq<char>)
    requires
        all_space(ws),
    ensures
        trim_start(ws + s) == trim_start(s),
    decreases ws.len(),
{
    if ws.len() > 0 {
        assert((ws + s)[0] == ws[0]);
        assert((ws + s).drop_first() =~= ws.drop_first() + s);
        lemma_trim_start_spaces(ws.drop_first(), s);
    } else {
        assert(ws + s =~= s);
    }
}

/// Whitespace at the back, however much, does not change what trimming the
/// end gives.
pub proof fn lemma_trim_end_spaces(s: Seq<char>, ws: Seq<char>)
    requires
        all_space(ws),
    ensures
        trim_end(s + ws) == trim_end(s),
    decreases ws.len(),
{
    if ws.len() > 0 {
        assert((s + ws).last() == ws.last());
        assert((s + ws).drop_last() =~= s + ws.drop_last());
        lemma_trim_end_spaces(s, ws.drop_last());
    } else {
        assert(s + ws =~= s);
    }
}

/// Copies of `c` in front, however many, do not change what stripping `c`
/// from the start gives.
pub proof fn lemma_strip_start_run(qs: Seq<char>, s: Seq<char>, c: char)
    requires
        all_char(qs, c),
    ensures
        strip_start_char(qs + s, c) == strip_start_char(s, c),
    decreases qs.len(),
{
    if qs.len() > 0 {
        assert((qs + s)[0] == qs[0]);
        assert((qs + s).drop_first() =~= qs.drop_first() + s);
        lemma_strip_start_run(qs.drop_first(), s, c);
    } else {
        assert(qs + s =~= s);
    }
}

/// Copies of `c` at the back, however many, do not change what stripping
/// `c` from the end gives.
pub proof fn lemma_strip_end_run(s: Seq<char>, qs: Seq<char>, c: char)
    requires
        all_char(qs, c),
    ensures
        strip_end_char(s + qs, c) == strip_end_char(s, c),
    decreases qs.len(),
{
    if qs.len() > 0 {
        assert((s + qs).last() == qs.last());
        assert((s + qs).drop_last() =~= s + qs.drop_last());
        lemma_strip_end_run(s, qs.drop_last(), c);
    } else {
        assert(s + qs =~= s);
    }
}

} // verus!
