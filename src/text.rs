//! Character-level helpers shared by the parsers: conversions between
//! strings and character vectors, trimming, searching and replacing.
use vstd::prelude::*;

verus! {

/// The characters of a string, in order.
pub fn chars_of(s: &str) -> (r: Vec<char>)
    ensures
        r@ == s@,
{
    let mut r: Vec<char> = Vec::new();
    for c in it: s.chars()
        invariant
            r@ == it.seq().take(it.index() as int),
    {
        r.push(c);
    }
    r
}

/// Relies on `String: FromIterator<&char>`: the string made of the given characters.
#[verifier::external_body]
pub(crate) fn string_of(v: &[char]) -> (r: String)
    ensures
        r@ == v@,
{
    String::from_iter(v)
}

/// The characters with the Unicode `White_Space` property, which `str::trim` removes.
pub open spec fn is_white(c: char) -> bool {
    ('\t' <= c && c <= '\r') || c == ' ' || c == '\u{85}' || c == '\u{a0}' || c == '\u{1680}'
        || ('\u{2000}' <= c && c <= '\u{200a}') || c == '\u{2028}' || c == '\u{2029}'
        || c == '\u{202f}' || c == '\u{205f}' || c == '\u{3000}'
}

pub fn white(c: char) -> (r: bool)
    ensures
        r == is_white(c),
{
    ('\t' <= c && c <= '\r') || c == ' ' || c == '\u{85}' || c == '\u{a0}' || c == '\u{1680}'
        || ('\u{2000}' <= c && c <= '\u{200a}') || c == '\u{2028}' || c == '\u{2029}'
        || c == '\u{202f}' || c == '\u{205f}' || c == '\u{3000}'
}

/// Number of leading white-space characters of `s`.
pub open spec fn lead_white(s: Seq<char>) -> nat
    decreases s.len(),
{
    if s.len() > 0 && is_white(s[0]) {
        1 + lead_white(s.drop_first())
    } else {
        0
    }
}

/// Number of trailing white-space characters of `s`.
pub open spec fn trail_white(s: Seq<char>) -> nat
    decreases s.len(),
{
    if s.len() > 0 && is_white(s.last()) {
        1 + trail_white(s.drop_last())
    } else {
        0
    }
}

/// `s` without its leading white space.
pub open spec fn trim_start(s: Seq<char>) -> Seq<char> {
    s.skip(lead_white(s) as int)
}

/// `s` without its trailing white space.
pub open spec fn trim_end(s: Seq<char>) -> Seq<char> {
    s.take(s.len() - trail_white(s))
}

/// `s` without leading and trailing white space.
pub open spec fn trim(s: Seq<char>) -> Seq<char> {
    trim_end(trim_start(s))
}

/// `s` with every non-overlapping occurrence of `pat`, scanned from the left,
/// replaced by `to`; this is what `str::replace` does for a non-empty pattern.
pub open spec fn replace_all(s: Seq<char>, pat: Seq<char>, to: Seq<char>) -> Seq<char>
    decreases s.len(),
{
    if pat.len() == 0 || s.len() < pat.len() {
        s
    } else if s.take(pat.len() as int) == pat {
        to + replace_all(s.skip(pat.len() as int), pat, to)
    } else {
        seq![s[0]] + replace_all(s.skip(1), pat, to)
    }
}

/// Index of the first occurrence of `c` in `s`, if any.
pub open spec fn first_index(s: Seq<char>, c: char) -> Option<int> {
    if exists|i: int| 0 <= i < s.len() && s[i] == c && forall|j: int| 0 <= j < i ==> s[j] != c {
        Some(choose|i: int| 0 <= i < s.len() && s[i] == c && forall|j: int| 0 <= j < i ==> s[j] != c)
    } else {
        None
    }
}

/// Leading white space stops at the first character that is not white.
pub proof fn lemma_lead_white_before(s: Seq<char>, i: int)
    requires
        0 <= i < s.len(),
        !is_white(s[i]),
    ensures
        lead_white(s) <= i,
    decreases i,
{
    if i > 0 && is_white(s[0]) {
        lemma_lead_white_before(s.drop_first(), i - 1);
    }
}

/// Trailing white space stops at the last character that is not white.
pub proof fn lemma_trail_white_after(s: Seq<char>, i: int)
    requires
        0 <= i < s.len(),
        !is_white(s[i]),
    ensures
        trail_white(s) <= s.len() - 1 - i,
    decreases s.len(),
{
    if i < s.len() - 1 && is_white(s.last()) {
        lemma_trail_white_after(s.drop_last(), i);
    }
}

/// Trimming keeps everything up to a character that is not white, when nothing
/// before it is white.
pub proof fn lemma_trim_keeps_prefix(s: Seq<char>, i: int)
    requires
        0 <= i < s.len(),
        !is_white(s[0]),
        !is_white(s[i]),
    ensures
        trim(s).len() > i,
        forall|j: int| 0 <= j <= i ==> trim(s)[j] == s[j],
{
    lemma_lead_white_before(s, 0);
    assert(trim_start(s) =~= s);
    lemma_trail_white_after(s, i);
}

/// A sequence with a character that is not white trims to something non-empty.
pub proof fn lemma_trim_nonempty(s: Seq<char>, i: int)
    requires
        0 <= i < s.len(),
        !is_white(s[i]),
    ensures
        trim(s).len() > 0,
{
    lemma_lead_white_before(s, i);
    let t = trim_start(s);
    let j = i - lead_white(s);
    assert(t[j] == s[i]);
    lemma_trail_white_after(t, j);
}

/// `s` without its leading and trailing white space.
pub fn trim_chars(s: &[char]) -> (r: Vec<char>)
    ensures
        r@ == trim(s@),
{
    let n = s.len();
    let mut i: usize = 0;
    assert(s@.skip(0) =~= s@);
    while i < n && white(s[i])
        invariant
            i <= n == s@.len(),
            lead_white(s@) == i + lead_white(s@.skip(i as int)),
        decreases n - i,
    {
        assert(s@.skip(i as int).drop_first() =~= s@.skip(i + 1));
        i = i + 1;
    }
    assert(lead_white(s@.skip(i as int)) == 0);
    let ghost t = s@.skip(i as int);
    let mut j: usize = n - i;
    assert(t.take(j as int) =~= t);
    while j > 0 && white(s[i + j - 1])
        invariant
            i + j <= n == s@.len(),
            t == s@.skip(i as int),
            trail_white(t) == (t.len() - j) + trail_white(t.take(j as int)),
        decreases j,
    {
        assert(t.take(j as int).drop_last() =~= t.take(j - 1));
        j = j - 1;
    }
    assert(trail_white(t.take(j as int)) == 0);
    let r = copy_range(s, i, i + j);
    assert(r@ =~= trim(s@));
    r
}

/// A copy of `s[a..b]`.
pub fn copy_range(s: &[char], a: usize, b: usize) -> (r: Vec<char>)
    requires
        a <= b <= s@.len(),
    ensures
        r@ == s@.subrange(a as int, b as int),
{
    let mut r: Vec<char> = Vec::new();
    let mut k: usize = a;
    while k < b
        invariant
            a <= k <= b <= s@.len(),
            r@ == s@.subrange(a as int, k as int),
        decreases b - k,
    {
        r.push(s[k]);
        k = k + 1;
        assert(r@ =~= s@.subrange(a as int, k as int));
    }
    r
}

/// Position of the first `c` in `s`.
pub fn find_char(s: &[char], c: char) -> (r: Option<usize>)
    ensures
        r matches Some(i) ==> i < s@.len() && s@[i as int] == c && first_index(s@, c) == Some(
            i as int,
        ),
        r is None ==> first_index(s@, c) is None,
{
    let mut i: usize = 0;
    while i < s.len()
        invariant
            i <= s@.len(),
            forall|j: int| 0 <= j < i ==> s@[j] != c,
        decreases s.len() - i,
    {
        if s[i] == c {
            assert(0 <= i < s@.len() && s@[i as int] == c && forall|j: int| 0 <= j < i ==> s@[j] != c);
            let ghost w = first_index(s@, c)->0;
            assert(w == i) by {
                if w < i {
                    assert(s@[w] != c);
                }
                if w > i {
                    assert(s@[i as int] != c);
                }
            }
            return Some(i);
        }
        i = i + 1;
    }
    None
}

/// Whether `pat` occurs in `s` at position `i`.
pub fn occurs_at(s: &[char], i: usize, pat: &[char]) -> (r: bool)
    requires
        i <= s@.len(),
    ensures
        r == (i + pat@.len() <= s@.len() && s@.subrange(i as int, i + pat@.len()) == pat@),
{
    if pat.len() > s.len() - i {
        return false;
    }
    let mut k: usize = 0;
    while k < pat.len()
        invariant
            i + pat@.len() <= s@.len(),
            s@.len() <= usize::MAX,
            k <= pat@.len(),
            forall|j: int| 0 <= j < k ==> s@[i + j] == pat@[j],
        decreases pat.len() - k,
    {
        if s[i + k] != pat[k] {
            assert(s@.subrange(i as int, i + pat@.len())[k as int] != pat@[k as int]);
            return false;
        }
        k = k + 1;
    }
    assert(s@.subrange(i as int, i + pat@.len()) =~= pat@);
    true
}

/// `s` with every occurrence of the non-empty `pat` replaced by `to`.
pub fn replace_chars(s: &[char], pat: &[char], to: &[char]) -> (r: Vec<char>)
    requires
        pat@.len() > 0,
    ensures
        r@ == replace_all(s@, pat@, to@),
{
    let mut r: Vec<char> = Vec::new();
    let mut i: usize = 0;
    assert(s@.skip(0) =~= s@);
    while i < s.len()
        invariant
            i <= s@.len(),
            pat@.len() > 0,
            r@ + replace_all(s@.skip(i as int), pat@, to@) == replace_all(s@, pat@, to@),
        decreases s.len() - i,
    {
        let ghost rest = s@.skip(i as int);
        if occurs_at(s, i, pat) {
            assert(rest.take(pat@.len() as int) =~= pat@);
            assert(rest.skip(pat@.len() as int) =~= s@.skip(i + pat@.len()));
            let mut k: usize = 0;
            let ghost r0 = r@;
            while k < to.len()
                invariant
                    k <= to@.len(),
                    r@ == r0 + to@.take(k as int),
                decreases to.len() - k,
            {
                r.push(to[k]);
                k = k + 1;
                assert(r@ =~= r0 + to@.take(k as int));
            }
            assert(to@.take(to@.len() as int) =~= to@);
            assert(r0 + replace_all(rest, pat@, to@) =~= r@ + replace_all(
                s@.skip(i + pat@.len()),
                pat@,
                to@,
            ));
            i = i + pat.len();
        } else {
            if s.len() - i >= pat.len() {
                assert(rest.take(pat@.len() as int) =~= s@.subrange(i as int, i + pat@.len()));
                assert(rest.skip(1) =~= s@.skip(i + 1));
                assert(seq![s@[i as int]] =~= seq![rest[0]]);
                let ghost r0 = r@;
                r.push(s[i]);
                assert(r0 + replace_all(rest, pat@, to@) =~= r@ + replace_all(
                    s@.skip(i + 1),
                    pat@,
                    to@,
                ));
                i = i + 1;
            } else {
                let tail = copy_range(s, i, s.len());
                let ghost r0 = r@;
                let mut k: usize = 0;
                while k < tail.len()
                    invariant
                        k <= tail@.len(),
                        r@ == r0 + tail@.take(k as int),
                    decreases tail.len() - k,
                {
                    r.push(tail[k]);
                    k = k + 1;
                    assert(r@ =~= r0 + tail@.take(k as int));
                }
                assert(tail@ =~= rest);
                assert(tail@.take(tail@.len() as int) =~= tail@);
                assert(s@.skip(s@.len() as int) =~= Seq::<char>::empty());
                i = s.len();
            }
        }
    }
    assert(s@.skip(s@.len() as int) =~= Seq::<char>::empty());
    r
}

} // verus!
