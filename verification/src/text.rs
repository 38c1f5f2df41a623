//! Character sequences: reading a `str`, building a `String`, finding and
//! replacing text, as the `str` methods of std do.
use vstd::prelude::*;

verus! {

broadcast use vstd::string::group_string_axioms;

/// Whether `pat` occurs in `s` starting at position `i`.
pub open spec fn occurs_at(s: Seq<char>, i: int, pat: Seq<char>) -> bool {
    0 <= i && i + pat.len() <= s.len() && s.subrange(i, i + pat.len()) == pat
}

/// Whether `pat` occurs anywhere in `s`.
pub open spec fn contains_pat(s: Seq<char>, pat: Seq<char>) -> bool {
    exists|i: int| #[trigger] occurs_at(s, i, pat)
}

/// Replacing a pattern that does not occur leaves the text as it is.
pub proof fn lemma_replace_absent(s: Seq<char>, pat: Seq<char>, rep: Seq<char>)
    requires
        !contains_pat(s, pat),
    ensures
        replace_all(s, pat, rep) == s,
    decreases s.len(),
{
    if pat.len() == 0 {
        assert(s.subrange(0, 0) =~= pat);
        assert(occurs_at(s, 0, pat));
    } else if s.len() >= pat.len() {
        if s.take(pat.len() as int) == pat {
            assert(s.subrange(0, pat.len() as int) =~= s.take(pat.len() as int));
            assert(occurs_at(s, 0, pat));
        }
        let t = s.drop_first();
        if contains_pat(t, pat) {
            let j = choose|j: int| #[trigger] occurs_at(t, j, pat);
            assert(t.subrange(j, j + pat.len()) =~= s.subrange(j + 1, j + 1 + pat.len()));
            assert(occurs_at(s, j + 1, pat));
        }
        lemma_replace_absent(t, pat, rep);
        assert(seq![s[0]] + t =~= s);
    }
}

/// A pattern that does not occur in `s` does not occur in a part of it.
pub proof fn lemma_absent_in_subrange(s: Seq<char>, pat: Seq<char>, a: int, b: int)
    requires
        0 <= a <= b <= s.len(),
        !contains_pat(s, pat),
    ensures
        !contains_pat(s.subrange(a, b), pat),
{
    let u = s.subrange(a, b);
    if contains_pat(u, pat) {
        let j = choose|j: int| #[trigger] occurs_at(u, j, pat);
        assert(u.subrange(j, j + pat.len()) =~= s.subrange(a + j, a + j + pat.len()));
        assert(occurs_at(s, a + j, pat));
    }
}

/// What `str::replace` gives for a pattern that is not empty: every
/// occurrence of `pat`, taken from left to right without overlap, is
/// replaced by `rep`.
pub open spec fn replace_all(s: Seq<char>, pat: Seq<char>, rep: Seq<char>) -> Seq<char>
    decreases s.len(),
{
    if pat.len() == 0 || s.len() < pat.len() {
        s
    } else if s.take(pat.len() as int) == pat {
        rep + replace_all(s.skip(pat.len() as int), pat, rep)
    } else {
        seq![s[0]] + replace_all(s.drop_first(), pat, rep)
    }
}

/// No character of `a` is a character of `b`.
pub open spec fn no_common_char(a: Seq<char>, b: Seq<char>) -> bool {
    forall|i: int, k: int| 0 <= i < a.len() && 0 <= k < b.len() ==> a[i] != b[k]
}

/// Where the start of a replaced text holds no character of the
/// replacement, it is the start of the text as it was.
pub proof fn lemma_replace_plain_prefix(y: Seq<char>, pat: Seq<char>, rep: Seq<char>, m: int)
    requires
        pat.len() > 0,
        rep.len() > 0,
        0 <= m <= replace_all(y, pat, rep).len(),
        forall|k: int, i: int|
            0 <= k < m && 0 <= i < rep.len() ==> replace_all(y, pat, rep)[k] != rep[i],
    ensures
        m <= y.len(),
        replace_all(y, pat, rep).subrange(0, m) == y.subrange(0, m),
    decreases y.len(),
{
    let r = replace_all(y, pat, rep);
    if y.len() < pat.len() {
    } else if y.take(pat.len() as int) == pat {
        if m > 0 {
            assert(r[0] == rep[0]);
        }
        assert(r.subrange(0, m) =~= y.subrange(0, m));
    } else if m > 0 {
        let y1 = y.drop_first();
        let r1 = replace_all(y1, pat, rep);
        assert(r == seq![y[0]] + r1);
        assert forall|k: int, i: int| 0 <= k < m - 1 && 0 <= i < rep.len() implies r1[k]
            != rep[i] by {
            assert(r1[k] == r[k + 1]);
        }
        lemma_replace_plain_prefix(y1, pat, rep, m - 1);
        assert(r.subrange(0, m) =~= seq![y[0]] + r1.subrange(0, m - 1));
        assert(y.subrange(0, m) =~= seq![y[0]] + y1.subrange(0, m - 1));
    } else {
        assert(r.subrange(0, m) =~= y.subrange(0, m));
    }
}

/// After every occurrence of `pat` is replaced by `rep`, a text `q` that
/// shares no character with `rep` occurs only where it occurred before; and
/// `pat` itself, if it shares no character with `rep`, no longer occurs.
pub proof fn lemma_replace_leaves_no(x: Seq<char>, pat: Seq<char>, rep: Seq<char>, q: Seq<char>)
    requires
        pat.len() > 0,
        rep.len() > 0,
        q.len() > 0,
        no_common_char(rep, q),
        q == pat || !contains_pat(x, q),
    ensures
        !contains_pat(replace_all(x, pat, rep), q),
    decreases x.len(),
{
    let r = replace_all(x, pat, rep);
    if x.len() < pat.len() {
        if q == pat && contains_pat(r, q) {
            let j = choose|j: int| #[trigger] occurs_at(r, j, q);
            assert(false);
        }
    } else if x.take(pat.len() as int) == pat {
        let x2 = x.skip(pat.len() as int);
        let r2 = replace_all(x2, pat, rep);
        if q != pat {
            assert(x2 =~= x.subrange(pat.len() as int, x.len() as int));
            lemma_absent_in_subrange(x, q, pat.len() as int, x.len() as int);
        }
        lemma_replace_leaves_no(x2, pat, rep, q);
        if contains_pat(r, q) {
            let j = choose|j: int| #[trigger] occurs_at(r, j, q);
            assert(r == rep + r2);
            if j < rep.len() {
                assert(r.subrange(j, j + q.len())[0] == q[0]);
                assert(rep[j] == q[0]);
            } else {
                assert(r2.subrange(j - rep.len(), j - rep.len() + q.len()) =~= r.subrange(
                    j,
                    j + q.len(),
                ));
                assert(occurs_at(r2, j - rep.len(), q));
            }
        }
    } else {
        let x1 = x.drop_first();
        let r1 = replace_all(x1, pat, rep);
        assert(r == seq![x[0]] + r1);
        if q != pat {
            assert(x1 =~= x.subrange(1, x.len() as int));
            lemma_absent_in_subrange(x, q, 1, x.len() as int);
        }
        lemma_replace_leaves_no(x1, pat, rep, q);
        if contains_pat(r, q) {
            let j = choose|j: int| #[trigger] occurs_at(r, j, q);
            if j >= 1 {
                assert(r1.subrange(j - 1, j - 1 + q.len()) =~= r.subrange(j, j + q.len()));
                assert(occurs_at(r1, j - 1, q));
            } else {
                let m = q.len() - 1;
                assert forall|k: int, i: int| 0 <= k < m && 0 <= i < rep.len() implies r1[k]
                    != rep[i] by {
                    assert(r1[k] == r[k + 1]);
                    assert(r[k + 1] == r.subrange(0, q.len() as int)[k + 1]);
                    assert(q[k + 1] == r[k + 1]);
                }
                lemma_replace_plain_prefix(x1, pat, rep, m);
                assert(x.subrange(0, q.len() as int) =~= seq![x[0]] + x1.subrange(0, m));
                assert(r.subrange(0, q.len() as int) =~= seq![x[0]] + r1.subrange(0, m));
                assert(occurs_at(x, 0, q));
                if q == pat {
                    assert(x.take(pat.len() as int) =~= x.subrange(0, q.len() as int));
                }
            }
        }
    }
}

/// The position of the first `c` in `s`, if there is one.
pub open spec fn first_index_of(s: Seq<char>, c: char) -> Option<int>
    decreases s.len(),
{
    if s.len() == 0 {
        None
    } else if s[0] == c {
        Some(0)
    } else {
        match first_index_of(s.drop_first(), c) {
            Some(k) => Some(k + 1),
            None => None,
        }
    }
}

pub proof fn lemma_first_index_of(s: Seq<char>, c: char)
    ensures
        first_index_of(s, c) matches Some(k) ==> 0 <= k < s.len() && s[k] == c && forall|
            j: int,
        |
            0 <= j < k ==> s[j] != c,
        first_index_of(s, c) is None ==> forall|j: int| 0 <= j < s.len() ==> s[j] != c,
    decreases s.len(),
{
    if s.len() > 0 && s[0] != c {
        lemma_first_index_of(s.drop_first(), c);
        assert forall|j: int| 1 <= j < s.len() implies s[j] == s.drop_first()[j - 1] by {}
    }
}

/// `first_index_of` is the first position that holds `c`.
pub proof fn lemma_first_index_of_is(s: Seq<char>, c: char, k: int)
    requires
        0 <= k <= s.len(),
        forall|j: int| 0 <= j < k ==> s[j] != c,
        k < s.len() ==> s[k] == c,
    ensures
        first_index_of(s, c) == (if k < s.len() { Some(k) } else { None::<int> }),
    decreases s.len(),
{
    if s.len() > 0 && k > 0 {
        let t = s.drop_first();
        assert forall|j: int| 0 <= j < k - 1 implies t[j] != c by {
            assert(t[j] == s[j + 1]);
        }
        lemma_first_index_of_is(t, c, k - 1);
    }
}

/// The position of the first `c` in `s[lo..hi]`, counted from the start of `s`.
pub fn find_char(s: &[char], lo: usize, hi: usize, c: char) -> (r: Option<usize>)
    requires
        lo <= hi <= s@.len(),
    ensures
        match r {
            Some(k) => lo <= k < hi && first_index_of(s@.subrange(lo as int, hi as int), c) == Some(
                (k - lo) as int,
            ),
            None => first_index_of(s@.subrange(lo as int, hi as int), c) is None,
        },
{
    let ghost t = s@.subrange(lo as int, hi as int);
    let mut i = lo;
    while i < hi
        invariant
            lo <= i <= hi <= s@.len(),
            t == s@.subrange(lo as int, hi as int),
            forall|j: int| 0 <= j < i - lo ==> t[j] != c,
        decreases hi - i,
    {
        if s[i] == c {
            proof {
                lemma_first_index_of_is(t, c, (i - lo) as int);
            }
            return Some(i);
        }
        i = i + 1;
    }
    proof {
        lemma_first_index_of_is(t, c, (hi - lo) as int);
    }
    None
}

/// The characters of `s`, in order.
pub fn chars_of(s: &str) -> (v: Vec<char>)
    ensures
        v@ == s@,
{
    let mut v: Vec<char> = Vec::new();
    for c in it: s.chars()
        invariant
            it.seq() == s@,
            v@ == it.seq().take(it.index() as int),
    {
        v.push(c);
    }
    v
}

/// `String::push`: the string afterwards holds one more character at its end.
#[verifier::external_body]
fn string_push(s: &mut String, c: char)
    ensures
        final(s)@ == old(s)@.push(c),
{
    s.push(c);
}

/// A `String` holding `s[lo..hi]`.
pub fn string_of(s: &[char], lo: usize, hi: usize) -> (r: String)
    requires
        lo <= hi <= s@.len(),
    ensures
        r@ == s@.subrange(lo as int, hi as int),
{
    let mut r = String::new();
    let mut i = lo;
    while i < hi
        invariant
            lo <= i <= hi <= s@.len(),
            r@ == s@.subrange(lo as int, i as int),
        decreases hi - i,
    {
        string_push(&mut r, s[i]);
        i = i + 1;
        assert(r@ =~= s@.subrange(lo as int, i as int));
    }
    r
}

/// Whether `pat` occurs in `s[..hi]` at position `i`.
pub fn occurs_at_exec(s: &[char], i: usize, hi: usize, pat: &[char]) -> (b: bool)
    requires
        i <= hi <= s@.len(),
    ensures
        b == occurs_at(s@.subrange(0, hi as int), i as int, pat@),
{
    let ghost t = s@.subrange(0, hi as int);
    if pat.len() > hi - i {
        return false;
    }
    let mut j: usize = 0;
    while j < pat.len()
        invariant
            i + pat@.len() <= hi <= s@.len(),
            t == s@.subrange(0, hi as int),
            0 <= j <= pat@.len(),
            forall|k: int| 0 <= k < j ==> s@[i + k] == pat@[k],
        decreases pat.len() - j,
    {
        if s[i + j] != pat[j] {
            assert(t.subrange(i as int, i + pat@.len())[j as int] != pat@[j as int]);
            return false;
        }
        j = j + 1;
    }
    assert(t.subrange(i as int, i + pat@.len()) =~= pat@);
    true
}

/// `s[lo..hi]` with every occurrence of `pat` replaced by `rep`, as
/// `str::replace` does.
pub fn replace_chars(s: &[char], lo: usize, hi: usize, pat: &[char], rep: &[char]) -> (r: Vec<
    char,
>)
    requires
        lo <= hi <= s@.len(),
        pat@.len() > 0,
    ensures
        r@ == replace_all(s@.subrange(lo as int, hi as int), pat@, rep@),
{
    let ghost whole = s@.subrange(lo as int, hi as int);
    let mut r: Vec<char> = Vec::new();
    let mut i = lo;
    proof {
        assert(whole.skip(0) =~= whole);
    }
    while i < hi
        invariant
            lo <= i <= hi <= s@.len(),
            pat@.len() > 0,
            whole == s@.subrange(lo as int, hi as int),
            replace_all(whole, pat@, rep@) == r@ + replace_all(
                s@.subrange(i as int, hi as int),
                pat@,
                rep@,
            ),
        decreases hi - i,
    {
        let ghost rest = s@.subrange(i as int, hi as int);
        let found = occurs_at_exec(s, i, hi, pat);
        let ghost old_r = r@;
        if hi - i < pat.len() {
            proof {
                assert(replace_all(rest, pat@, rep@) == rest);
            }
            let mut k = i;
            while k < hi
                invariant
                    i <= k <= hi <= s@.len(),
                    r@ == old_r + s@.subrange(i as int, k as int),
                decreases hi - k,
            {
                r.push(s[k]);
                k = k + 1;
                assert(r@ =~= old_r + s@.subrange(i as int, k as int));
            }
            i = hi;
            assert(r@ =~= old_r + rest);
            assert(s@.subrange(i as int, hi as int) =~= Seq::<char>::empty());
        } else if found {
            proof {
                assert(rest.take(pat@.len() as int) =~= s@.subrange(0, hi as int).subrange(
                    i as int,
                    i + pat@.len(),
                ));
                assert(rest.skip(pat@.len() as int) =~= s@.subrange(
                    i + pat@.len(),
                    hi as int,
                ));
            }
            let mut k: usize = 0;
            while k < rep.len()
                invariant
                    0 <= k <= rep@.len(),
                    r@ == old_r + rep@.take(k as int),
                decreases rep.len() - k,
            {
                r.push(rep[k]);
                k = k + 1;
                assert(r@ =~= old_r + rep@.take(k as int));
            }
            assert(rep@.take(rep@.len() as int) =~= rep@);
            i = i + pat.len();
            assert(r@ + replace_all(s@.subrange(i as int, hi as int), pat@, rep@) =~= old_r
                + replace_all(rest, pat@, rep@));
        } else {
            proof {
                assert(rest.take(pat@.len() as int) =~= s@.subrange(0, hi as int).subrange(
                    i as int,
                    i + pat@.len(),
                ));
                assert(rest.drop_first() =~= s@.subrange(i + 1, hi as int));
            }
            r.push(s[i]);
            i = i + 1;
            assert(r@ + replace_all(s@.subrange(i as int, hi as int), pat@, rep@) =~= old_r
                + replace_all(rest, pat@, rep@));
        }
    }
    assert(replace_all(s@.subrange(i as int, hi as int), pat@, rep@) =~= Seq::<char>::empty());
    assert(r@ + Seq::<char>::empty() =~= r@);
    r
}

} // verus!
