//! Lists of bounds, and the format strings that embed them.
use vstd::prelude::*;

use std::cmp::Ordering;
use std::str::FromStr;

use crate::bounds::{
    Side, UserBoundsList, bounds_order, is_valid_bound, lemma_parsed_bound_is_valid,
    BoundOrFiller, BoundsError, BoundsErrorView, Piece, UserBounds, list_view, parse_user_bounds_chars,
    pieces_view, result_view, spec_user_bounds,
};
use crate::text::{
    contains_pat, lemma_absent_in_subrange, lemma_replace_absent, lemma_replace_leaves_no,
    no_common_char, occurs_at, chars_of, first_index_of, lemma_first_index_of,
    lemma_first_index_of_is, replace_all, replace_chars, string_of,
};

verus! {

/// The outcome `r` with the pieces `acc` put before what it holds.
pub open spec fn prepend(acc: Seq<Piece>, r: Result<Seq<Piece>, BoundsErrorView>) -> Result<
    Seq<Piece>,
    BoundsErrorView,
> {
    match r {
        Ok(x) => Ok(acc + x),
        Err(e) => Err(e),
    }
}

/// The bounds of `s` written one after the other, separated by commas;
/// the first bound that is refused gives the error.
pub open spec fn spec_bound_items(s: Seq<char>) -> Result<Seq<Piece>, BoundsErrorView>
    decreases s.len(),
{
    match first_index_of(s, ',') {
        None => match spec_user_bounds(s) {
            Ok(b) => Ok(seq![Piece::Bound(b)]),
            Err(e) => Err(e),
        },
        Some(k) => {
            proof {
                lemma_first_index_of(s, ',');
            }
            match spec_user_bounds(s.take(k)) {
                Err(e) => Err(e),
                Ok(b) => prepend(seq![Piece::Bound(b)], spec_bound_items(s.skip(k + 1))),
            }
        },
    }
}

proof fn lemma_prepend_prepend(a: Seq<Piece>, b: Seq<Piece>, r: Result<Seq<Piece>, BoundsErrorView>)
    ensures
        prepend(a, prepend(b, r)) == prepend(a + b, r),
{
    if let Ok(x) = r {
        assert(a + (b + x) =~= (a + b) + x);
    }
}

proof fn lemma_pieces_push(v: Seq<BoundOrFiller>, p: BoundOrFiller)
    ensures
        pieces_view(v.push(p)) == pieces_view(v).push(p@),
{
    assert(pieces_view(v.push(p)) =~= pieces_view(v).push(p@));
}

/// Appends to `out` the bounds of `s[lo..hi]`, separated by commas.
pub fn push_bound_items(s: &[char], lo: usize, hi: usize, out: &mut Vec<BoundOrFiller>) -> (r:
    Result<(), BoundsError>)
    requires
        lo <= hi <= s@.len(),
    ensures
        prepend(pieces_view(old(out)@), spec_bound_items(s@.subrange(lo as int, hi as int)))
            == match r {
            Ok(_) => Ok::<Seq<Piece>, BoundsErrorView>(pieces_view(final(out)@)),
            Err(e) => Err(e@),
        },
{
    let ghost goal = prepend(pieces_view(out@), spec_bound_items(s@.subrange(lo as int, hi as int)));
    let mut seg = lo;
    let mut i = lo;
    while i < hi
        invariant
            lo <= seg <= i <= hi <= s@.len(),
            goal == prepend(pieces_view(old(out)@), spec_bound_items(s@.subrange(lo as int, hi as int))),
            goal == prepend(pieces_view(out@), spec_bound_items(s@.subrange(seg as int, hi as int))),
            forall|j: int| seg <= j < i ==> s@[j] != ',',
        decreases hi - i,
    {
        if s[i] == ',' {
            let ghost t = s@.subrange(seg as int, hi as int);
            proof {
                assert forall|j: int| 0 <= j < i - seg implies t[j] != ',' by {
                    assert(t[j] == s@[seg + j]);
                }
                lemma_first_index_of_is(t, ',', (i - seg) as int);
                assert(t.take(i - seg) =~= s@.subrange(seg as int, i as int));
                assert(t.skip(i - seg + 1) =~= s@.subrange(i + 1, hi as int));
            }
            match parse_user_bounds_chars(s, seg, i) {
                Ok(b) => {
                    let ghost before = out@;
                    out.push(BoundOrFiller::Bound(b));
                    proof {
                        lemma_pieces_push(before, BoundOrFiller::Bound(b));
                        lemma_prepend_prepend(
                            pieces_view(before),
                            seq![Piece::Bound(b)],
                            spec_bound_items(s@.subrange(i + 1, hi as int)),
                        );
                        assert(pieces_view(before) + seq![Piece::Bound(b)] =~= pieces_view(out@));
                    }
                },
                Err(e) => {
                    assert(spec_bound_items(t) == Err::<Seq<Piece>, BoundsErrorView>(e@));
                    return Err(e);
                },
            }
            seg = i + 1;
        }
        i = i + 1;
    }
    let ghost t = s@.subrange(seg as int, hi as int);
    proof {
        assert forall|j: int| 0 <= j < hi - seg implies t[j] != ',' by {
            assert(t[j] == s@[seg + j]);
        }
        lemma_first_index_of_is(t, ',', (hi - seg) as int);
    }
    match parse_user_bounds_chars(s, seg, hi) {
        Ok(b) => {
            let ghost before = out@;
            out.push(BoundOrFiller::Bound(b));
            proof {
                lemma_pieces_push(before, BoundOrFiller::Bound(b));
                assert(spec_bound_items(t) == Ok::<Seq<Piece>, BoundsErrorView>(
                    seq![Piece::Bound(b)],
                ));
                assert(pieces_view(before) + seq![Piece::Bound(b)] =~= pieces_view(out@));
            }
            Ok(())
        },
        Err(e) => {
            assert(spec_bound_items(t) == Err::<Seq<Piece>, BoundsErrorView>(e@));
            Err(e)
        },
    }
}

/// Whether `s` holds a `{` or a `}`.
pub open spec fn has_brace(s: Seq<char>) -> bool {
    exists|i: int| 0 <= i < s.len() && (s[i] == '{' || s[i] == '}')
}

/// A format string with its escapes taken out: `{{` and `}}` become marks
/// that no bound can hold, and the two characters `\n` a line break.
pub open spec fn escape_format(s: Seq<char>) -> Seq<char> {
    replace_all(
        replace_all(replace_all(s, seq!['{', '{'], "__tuc_open"@), seq!['}', '}'], "__tuc_close"@),
        seq!['\\', 'n'],
        seq!['\n'],
    )
}

/// The text of a filler with the marks turned back into `{{` and `}}`.
pub open spec fn unescape_filler(f: Seq<char>) -> Seq<char> {
    replace_all(replace_all(f, "__tuc_open"@, seq!['{', '{']), "__tuc_close"@, seq!['}', '}'])
}

/// A filler piece, where the text is not empty.
pub open spec fn filler_piece(f: Seq<char>) -> Seq<Piece> {
    if f.len() > 0 {
        seq![Piece::Filler(unescape_filler(f))]
    } else {
        seq![]
    }
}

/// The pieces of the escaped format string `t` from position `i` on, where
/// the text since the last `}` starts at `prev`, `start` is the `{` of the
/// bound being read and `end` the last `}`. Each `{..}` holds bounds
/// separated by commas; the text before it is a filler; so is the text after
/// the last `}`, or the whole text where no bound was read. A `}` with no `{`
/// open, and a `{` inside a bound or still open at the end, are refused.
pub open spec fn scan_format(
    t: Seq<char>,
    i: int,
    prev: int,
    start: Option<int>,
    end: Option<int>,
) -> Result<Seq<Piece>, BoundsErrorView>
    decreases t.len() - i,
{
    if i >= t.len() {
        if start is Some {
            Err(BoundsErrorView::MissingClosingParenthesis)
        } else {
            Ok(
                match end {
                    Some(e) => if e < t.len() - 1 {
                        seq![Piece::Filler(unescape_filler(t.subrange(e + 1, t.len() as int)))]
                    } else {
                        seq![]
                    },
                    None => filler_piece(t.subrange(prev, t.len() as int)),
                },
            )
        }
    } else if t[i] == '}' && start is None {
        Err(BoundsErrorView::MissingOpeningParenthesis)
    } else if t[i] == '{' && start is Some {
        Err(BoundsErrorView::MissingClosingParenthesis)
    } else if t[i] == '{' {
        scan_format(t, i + 1, prev, Some(i), end)
    } else if t[i] == '}' {
        let st = start->0;
        match spec_bound_items(t.subrange(st + 1, i)) {
            Err(e) => Err(e),
            Ok(bs) => prepend(
                filler_piece(t.subrange(prev, st)) + bs,
                scan_format(t, i + 1, i + 1, None, Some(i)),
            ),
        }
    } else {
        scan_format(t, i + 1, prev, start, end)
    }
}

/// What `parse_bounds_list` gives for `s`: without braces, bounds separated
/// by commas; with braces, the pieces of the format string.
pub open spec fn spec_parse_bounds_list(s: Seq<char>) -> Result<Seq<Piece>, BoundsErrorView> {
    if has_brace(s) {
        if s.len() == 1 {
            if s[0] == '{' {
                Err(BoundsErrorView::MissingClosingParenthesis)
            } else {
                Err(BoundsErrorView::MissingOpeningParenthesis)
            }
        } else {
            scan_format(escape_format(s), 0, 0, None, None)
        }
    } else {
        spec_bound_items(s)
    }
}

pub open spec fn opt_int(o: Option<usize>) -> Option<int> {
    match o {
        Some(v) => Some(v as int),
        None => None,
    }
}

/// Whether `s` holds a `{` or a `}`.
fn has_brace_exec(s: &[char]) -> (b: bool)
    ensures
        b == has_brace(s@),
{
    let mut i: usize = 0;
    while i < s.len()
        invariant
            0 <= i <= s@.len(),
            forall|j: int| 0 <= j < i ==> !(s@[j] == '{' || s@[j] == '}'),
        decreases s.len() - i,
    {
        if s[i] == '{' || s[i] == '}' {
            return true;
        }
        i = i + 1;
    }
    false
}

/// The filler of `t[lo..hi]`, with the marks turned back into `{{` and `}}`.
fn unescape_filler_exec(t: &[char], lo: usize, hi: usize, open: &[char], close: &[char]) -> (r:
    String)
    requires
        lo <= hi <= t@.len(),
        open@ == "__tuc_open"@,
        close@ == "__tuc_close"@,
    ensures
        r@ == unescape_filler(t@.subrange(lo as int, hi as int)),
{
    proof {
        reveal_strlit("__tuc_open");
        reveal_strlit("__tuc_close");
    }
    let braces_open = vec!['{', '{'];
    let braces_close = vec!['}', '}'];
    let u1 = replace_chars(t, lo, hi, open, braces_open.as_slice());
    let u2 = replace_chars(u1.as_slice(), 0, u1.len(), close, braces_close.as_slice());
    assert(u1@.subrange(0, u1@.len() as int) =~= u1@);
    let r = string_of(u2.as_slice(), 0, u2.len());
    assert(u2@.subrange(0, u2@.len() as int) =~= u2@);
    r
}

/// Reads the bounds of the `{..}` that opens at `st` and closes at `i`,
/// after the filler that runs from `prev` to `st`.
fn close_bound(
    t: &[char],
    prev: usize,
    st: usize,
    i: usize,
    open: &[char],
    close: &[char],
    out: &mut Vec<BoundOrFiller>,
) -> (r: Result<(), BoundsError>)
    requires
        prev <= st < i < t@.len(),
        t@[i as int] == '}',
        open@ == "__tuc_open"@,
        close@ == "__tuc_close"@,
    ensures
        match spec_bound_items(t@.subrange(st + 1, i as int)) {
            Err(e) => r matches Err(e2) && e2@ == e,
            Ok(bs) => r is Ok && pieces_view(final(out)@) == pieces_view(old(out)@) + (filler_piece(
                t@.subrange(prev as int, st as int),
            ) + bs),
        },
{
    let ghost before = out@;
    if st > prev {
        let f = unescape_filler_exec(t, prev, st, open, close);
        out.push(BoundOrFiller::Filler(f));
        proof {
            lemma_pieces_push(before, BoundOrFiller::Filler(f));
        }
    }
    let ghost mid = out@;
    assert(pieces_view(mid) =~= pieces_view(before) + filler_piece(
        t@.subrange(prev as int, st as int),
    ));
    let r = push_bound_items(t, st + 1, i, out);
    proof {
        if let Ok(bs) = spec_bound_items(t@.subrange(st + 1, i as int)) {
            assert(pieces_view(out@) =~= pieces_view(before) + (filler_piece(
                t@.subrange(prev as int, st as int),
            ) + bs));
        }
    }
    r
}

/// The pieces of the escaped format string `t`.
fn scan_format_exec(t: &[char], open: &[char], close: &[char]) -> (r: Result<
    Vec<BoundOrFiller>,
    BoundsError,
>)
    requires
        open@ == "__tuc_open"@,
        close@ == "__tuc_close"@,
    ensures
        list_view(r) == scan_format(t@, 0, 0, None, None),
{
    let n = t.len();
    let ghost goal = scan_format(t@, 0, 0, None, None);
    let mut out: Vec<BoundOrFiller> = Vec::new();
    let mut prev: usize = 0;
    let mut start: Option<usize> = None;
    let mut end: Option<usize> = None;
    let mut i: usize = 0;
    assert(pieces_view(out@) =~= Seq::<Piece>::empty());
    proof {
        if let Ok(x) = goal {
            assert(Seq::<Piece>::empty() + x =~= x);
        }
    }
    while i < n
        invariant
            n == t@.len(),
            0 <= prev <= i <= n,
            open@ == "__tuc_open"@,
            close@ == "__tuc_close"@,
            start matches Some(st) ==> prev <= st < i,
            end matches Some(e) ==> e < i,
            goal == scan_format(t@, 0, 0, None, None),
            goal == prepend(
                pieces_view(out@),
                scan_format(t@, i as int, prev as int, opt_int(start), opt_int(end)),
            ),
        decreases n - i,
    {
        let c = t[i];
        match start {
            None => {
                if c == '}' {
                    return Err(BoundsError::MissingOpeningParenthesis);
                }
                if c == '{' {
                    start = Some(i);
                }
            },
            Some(st) => {
                if c == '{' {
                    return Err(BoundsError::MissingClosingParenthesis);
                }
                if c == '}' {
                    let ghost before = out@;
                    let ghost p0 = prev;
                    let r = close_bound(t, prev, st, i, open, close, &mut out);
                    if r.is_err() {
                        return Err(r.unwrap_err());
                    }
                    proof {
                        let bs = spec_bound_items(t@.subrange(st + 1, i as int))->Ok_0;
                        let fp = filler_piece(t@.subrange(p0 as int, st as int));
                        let rest = scan_format(t@, i + 1, i + 1, None, Some(i as int));
                        lemma_prepend_prepend(pieces_view(before), fp + bs, rest);
                    }
                    prev = i + 1;
                    start = None;
                    end = Some(i);
                }
            },
        }
        i = i + 1;
    }
    if start.is_some() {
        return Err(BoundsError::MissingClosingParenthesis);
    }
    let ghost before = out@;
    match end {
        Some(e) => {
            if e < n - 1 {
                let f = unescape_filler_exec(t, e + 1, n, open, close);
                out.push(BoundOrFiller::Filler(f));
                proof {
                    lemma_pieces_push(before, BoundOrFiller::Filler(f));
                }
            }
        },
        None => {
            if prev < n {
                let f = unescape_filler_exec(t, prev, n, open, close);
                out.push(BoundOrFiller::Filler(f));
                proof {
                    lemma_pieces_push(before, BoundOrFiller::Filler(f));
                }
            }
        },
    }
    proof {
        let tail = scan_format(t@, i as int, prev as int, opt_int(start), opt_int(end))->Ok_0;
        assert(pieces_view(out@) =~= pieces_view(before) + tail);
    }
    Ok(out)
}

/// Reads a list of bounds (`1`, `-1`, `1:3`, `:3`, `1:`, `1,4`), or a format
/// string (`"Hello {1}, found {1:3} and {2,4}"`): there everything inside
/// `{}` is a bound, and the rest is text to print around them; `{{` and `}}`
/// stand for braces of the text.
pub fn parse_bounds_list(s: &str) -> (r: Result<Vec<BoundOrFiller>, BoundsError>)
    ensures
        list_view(r) == spec_parse_bounds_list(s@),
        r matches Ok(v) ==> bounds_valid(pieces_view(v@)),
{
    proof {
        lemma_parse_bounds_list_valid(s@);
    }
    let cs = chars_of(s);
    let n0 = cs.len();
    assert(cs@.subrange(0, n0 as int) =~= cs@);
    if !has_brace_exec(cs.as_slice()) {
        let mut out: Vec<BoundOrFiller> = Vec::new();
        assert(pieces_view(out@) =~= Seq::<Piece>::empty());
        let r = push_bound_items(cs.as_slice(), 0, n0, &mut out);
        match r {
            Ok(_) => {
                assert(Seq::<Piece>::empty() + pieces_view(out@) =~= pieces_view(out@));
                return Ok(out);
            },
            Err(e) => {
                return Err(e);
            },
        }
    }
    if n0 == 1 {
        if cs[0] == '{' {
            return Err(BoundsError::MissingClosingParenthesis);
        } else {
            return Err(BoundsError::MissingOpeningParenthesis);
        }
    }
    let open = chars_of("__tuc_open");
    let close = chars_of("__tuc_close");
    proof {
        reveal_strlit("__tuc_open");
        reveal_strlit("__tuc_close");
    }
    let braces_open = vec!['{', '{'];
    let braces_close = vec!['}', '}'];
    let escaped_newline = vec!['\\', 'n'];
    let newline = vec!['\n'];
    assert(braces_open@ =~= seq!['{', '{']);
    assert(braces_close@ =~= seq!['}', '}']);
    assert(escaped_newline@ =~= seq!['\\', 'n']);
    assert(newline@ =~= seq!['\n']);
    let t1 = replace_chars(cs.as_slice(), 0, n0, braces_open.as_slice(), open.as_slice());
    let t2 = replace_chars(t1.as_slice(), 0, t1.len(), braces_close.as_slice(), close.as_slice());
    let t = replace_chars(
        t2.as_slice(),
        0,
        t2.len(),
        escaped_newline.as_slice(),
        newline.as_slice(),
    );
    assert(t1@.subrange(0, t1@.len() as int) =~= t1@);
    assert(t2@.subrange(0, t2@.len() as int) =~= t2@);
    assert(t@ == escape_format(s@));
    scan_format_exec(t.as_slice(), open.as_slice(), close.as_slice())
}

/// The pieces of the format string `s` from position `i` on, read with no
/// escapes taken out beforehand: `{{` and `}}` are skipped and stay in the
/// text; a `{` starts a bound (the text before it, since `part`, is a filler
/// where it is not empty); a `}` ends one, whose text holds bounds separated
/// by commas; a `}` outside a bound, and a bound still open at the end, are
/// refused; the text after the last bound is a filler.
pub open spec fn scan_format_2(s: Seq<char>, i: int, inside: bool, part: int) -> Result<
    Seq<Piece>,
    BoundsErrorView,
>
    decreases s.len() - i,
{
    if i >= s.len() {
        if inside {
            Err(BoundsErrorView::MissingClosingParenthesis)
        } else if part < s.len() {
            Ok(seq![Piece::Filler(s.subrange(part, s.len() as int))])
        } else {
            Ok(seq![])
        }
    } else {
        let w0 = s[i];
        let w1 = if i + 1 < s.len() {
            s[i + 1]
        } else {
            'x'
        };
        if w0 == w1 && (w0 == '{' || w0 == '}') {
            scan_format_2(s, i + 2, inside, part)
        } else if w0 == '}' && !inside {
            Err(BoundsErrorView::MissingOpeningParenthesis)
        } else if w0 == '{' {
            prepend(
                if i > part {
                    seq![Piece::Filler(s.subrange(part, i))]
                } else {
                    seq![]
                },
                scan_format_2(s, i + 1, true, i + 1),
            )
        } else if w0 == '}' {
            match spec_bound_items(s.subrange(part, i)) {
                Err(e) => Err(e),
                Ok(bs) => prepend(bs, scan_format_2(s, i + 1, false, i + 1)),
            }
        } else {
            scan_format_2(s, i + 1, inside, part)
        }
    }
}

/// What `parse_bounds_list_2` gives for `s`: without braces, bounds
/// separated by commas; with braces, the pieces of the format string.
pub open spec fn spec_parse_bounds_list_2(s: Seq<char>) -> Result<Seq<Piece>, BoundsErrorView> {
    if has_brace(s) {
        scan_format_2(s, 0, false, 0)
    } else {
        spec_bound_items(s)
    }
}

/// Reads a list of bounds, or a format string, reading escaped braces in
/// place: a filler keeps `{{` and `}}` as they are written. Fillers and
/// bounds are cut from the text at character positions.
pub fn parse_bounds_list_2(s: &str) -> (r: Result<Vec<BoundOrFiller>, BoundsError>)
    ensures
        list_view(r) == spec_parse_bounds_list_2(s@),
        r matches Ok(v) ==> bounds_valid(pieces_view(v@)),
{
    proof {
        lemma_parse_bounds_list_2_valid(s@);
    }
    let cs = chars_of(s);
    let n = cs.len();
    let mut out: Vec<BoundOrFiller> = Vec::new();
    assert(cs@.subrange(0, n as int) =~= cs@);
    assert(pieces_view(out@) =~= Seq::<Piece>::empty());
    if !has_brace_exec(cs.as_slice()) {
        let r = push_bound_items(cs.as_slice(), 0, n, &mut out);
        match r {
            Ok(_) => {
                assert(Seq::<Piece>::empty() + pieces_view(out@) =~= pieces_view(out@));
                return Ok(out);
            },
            Err(e) => {
                return Err(e);
            },
        }
    }
    let ghost goal = scan_format_2(cs@, 0, false, 0);
    proof {
        if let Ok(x) = goal {
            assert(Seq::<Piece>::empty() + x =~= x);
        }
    }
    let mut inside = false;
    let mut part: usize = 0;
    let mut i: usize = 0;
    while i < n
        invariant
            n == cs@.len(),
            0 <= part <= i <= n,
            goal == scan_format_2(cs@, 0, false, 0),
            cs@ == s@,
            has_brace(s@),
            goal == prepend(pieces_view(out@), scan_format_2(cs@, i as int, inside, part as int)),
        decreases n - i,
    {
        let w0 = cs[i];
        let w1 = if i + 1 < n {
            cs[i + 1]
        } else {
            'x'
        };
        let ghost before = out@;
        if w0 == w1 && (w0 == '{' || w0 == '}') {
            i = i + 2;
        } else if w0 == '}' && !inside {
            return Err(BoundsError::MissingOpeningParenthesis);
        } else if w0 == '{' {
            inside = true;
            let ghost fill: Seq<Piece> = if i > part {
                seq![Piece::Filler(cs@.subrange(part as int, i as int))]
            } else {
                seq![]
            };
            if i > part {
                let f = string_of(cs.as_slice(), part, i);
                out.push(BoundOrFiller::Filler(f));
                proof {
                    lemma_pieces_push(before, BoundOrFiller::Filler(f));
                }
            }
            proof {
                assert(pieces_view(out@) =~= pieces_view(before) + fill);
                lemma_prepend_prepend(
                    pieces_view(before),
                    fill,
                    scan_format_2(cs@, i + 1, true, i + 1),
                );
            }
            part = i + 1;
            i = i + 1;
        } else if w0 == '}' {
            inside = false;
            match push_bound_items(cs.as_slice(), part, i, &mut out) {
                Ok(_) => {},
                Err(e) => {
                    assert(spec_bound_items(cs@.subrange(part as int, i as int)) == Err::<
                        Seq<Piece>,
                        BoundsErrorView,
                    >(e@));
                    return Err(e);
                },
            }
            proof {
                let bs = spec_bound_items(cs@.subrange(part as int, i as int))->Ok_0;
                lemma_prepend_prepend(
                    pieces_view(before),
                    bs,
                    scan_format_2(cs@, i + 1, false, i + 1),
                );
            }
            part = i + 1;
            i = i + 1;
        } else {
            i = i + 1;
        }
    }
    if inside {
        return Err(BoundsError::MissingClosingParenthesis);
    }
    let ghost before = out@;
    if part < n {
        let f = string_of(cs.as_slice(), part, n);
        out.push(BoundOrFiller::Filler(f));
        proof {
            lemma_pieces_push(before, BoundOrFiller::Filler(f));
        }
    }
    proof {
        let tail = scan_format_2(cs@, i as int, inside, part as int)->Ok_0;
        assert(pieces_view(out@) =~= pieces_view(before) + tail);
    }
    Ok(out)
}

/// A side that is an index above 0.
pub open spec fn side_positive(s: Side) -> bool {
    s matches Side::Index(v) && v > 0
}

/// A side that is an index of 0 or below.
pub open spec fn side_not_positive(s: Side) -> bool {
    s matches Side::Index(v) && v <= 0
}

/// The piece is a bound with a side above 0.
pub open spec fn piece_has_positive(p: BoundOrFiller) -> bool {
    match p {
        BoundOrFiller::Bound(b) => side_positive(b.l) || side_positive(b.r),
        BoundOrFiller::Filler(_) => false,
    }
}

/// The piece is a bound with a side of 0 or below.
pub open spec fn piece_has_non_positive(p: BoundOrFiller) -> bool {
    match p {
        BoundOrFiller::Bound(b) => side_not_positive(b.l) || side_not_positive(b.r),
        BoundOrFiller::Filler(_) => false,
    }
}

/// Some bound of `v` has a side above 0.
pub open spec fn has_positive_index(v: Seq<BoundOrFiller>) -> bool {
    exists|i: int| 0 <= i < v.len() && #[trigger] piece_has_positive(v[i])
}

/// Some bound of `v` has a side of 0 or below.
pub open spec fn has_non_positive_index(v: Seq<BoundOrFiller>) -> bool {
    exists|i: int| 0 <= i < v.len() && #[trigger] piece_has_non_positive(v[i])
}

/// `a <= b` in the order of bounds: `a` does not come after `b`.
pub open spec fn order_le(a: UserBounds, b: UserBounds) -> bool {
    bounds_order(a, b) != Ordering::Greater
}

/// `a <= b` in the order of bounds.
pub fn bounds_le(a: &UserBounds, b: &UserBounds) -> (r: bool)
    ensures
        r == order_le(*a, *b),
{
    a <= b
}

/// The bounds at `i` and `i + 1` are in order, where both are bounds.
pub open spec fn pair_in_order(v: Seq<BoundOrFiller>, i: int) -> bool {
    match (v[i], v[i + 1]) {
        (BoundOrFiller::Bound(a), BoundOrFiller::Bound(b)) => order_le(a, b),
        _ => true,
    }
}

/// Each neighbouring pair of bounds is in order.
pub open spec fn pieces_sorted(v: Seq<BoundOrFiller>) -> bool {
    forall|i: int| 0 <= i < v.len() - 1 ==> #[trigger] pair_in_order(v, i)
}

impl UserBoundsList {
    /// Reads a list of bounds or a format string, as `parse_bounds_list` does.
    pub fn parse(s: &str) -> (r: Result<UserBoundsList, BoundsError>)
        ensures
            match r {
                Ok(l) => spec_parse_bounds_list(s@) == Ok::<Seq<Piece>, BoundsErrorView>(
                    pieces_view(l.0@),
                ),
                Err(e) => spec_parse_bounds_list(s@) == Err::<Seq<Piece>, BoundsErrorView>(e@),
            },
            r matches Ok(l) ==> bounds_valid(pieces_view(l.0@)),
    {
        match parse_bounds_list(s) {
            Ok(v) => Ok(UserBoundsList(v)),
            Err(e) => Err(e),
        }
    }

    /// Whether the bounds can be ordered: they do not mix an index above 0
    /// with one of 0 or below.
    pub fn is_sortable(&self) -> (r: bool)
        ensures
            r == !(has_positive_index(self.0@) && has_non_positive_index(self.0@)),
    {
        let mut has_positive_idx = false;
        let mut has_negative_idx = false;
        let mut i: usize = 0;
        while i < self.0.len()
            invariant
                0 <= i <= self.0@.len(),
                has_positive_idx == has_positive_index(self.0@.take(i as int)),
                has_negative_idx == has_non_positive_index(self.0@.take(i as int)),
            decreases self.0.len() - i,
        {
            let ghost prev = self.0@.take(i as int);
            let ghost next = self.0@.take(i + 1);
            match &self.0[i] {
                BoundOrFiller::Bound(b) => {
                    match b.l {
                        Side::Index(left) => {
                            if left > 0 {
                                has_positive_idx = true;
                            } else {
                                has_negative_idx = true;
                            }
                        },
                        Side::Continue => {},
                    }
                    match b.r {
                        Side::Index(right) => {
                            if right > 0 {
                                has_positive_idx = true;
                            } else {
                                has_negative_idx = true;
                            }
                        },
                        Side::Continue => {},
                    }
                },
                BoundOrFiller::Filler(_) => {},
            }
            proof {
                assert(next[i as int] == self.0@[i as int]);
                assert forall|j: int| 0 <= j < i implies next[j] == prev[j] by {}
                if has_positive_index(next) {
                    let j = choose|j: int| 0 <= j < next.len() && #[trigger] piece_has_positive(next[j]);
                    if j < i {
                        assert(piece_has_positive(prev[j]));
                    }
                }
                if has_non_positive_index(next) {
                    let j = choose|j: int|
                        0 <= j < next.len() && #[trigger] piece_has_non_positive(next[j]);
                    if j < i {
                        assert(piece_has_non_positive(prev[j]));
                    }
                }
                if has_positive_index(prev) {
                    let j = choose|j: int| 0 <= j < prev.len() && #[trigger] piece_has_positive(prev[j]);
                    assert(piece_has_positive(next[j]));
                }
                if has_non_positive_index(prev) {
                    let j = choose|j: int|
                        0 <= j < prev.len() && #[trigger] piece_has_non_positive(prev[j]);
                    assert(piece_has_non_positive(next[j]));
                }
                if piece_has_positive(next[i as int]) {
                    assert(has_positive_index(next));
                }
                if piece_has_non_positive(next[i as int]) {
                    assert(has_non_positive_index(next));
                }
            }
            i = i + 1;
        }
        assert(self.0@.take(i as int) =~= self.0@);
        !(has_negative_idx && has_positive_idx)
    }

    /// Whether each bound is in order with the next one (the pieces between
    /// that are fillers are passed over in pairs with them).
    pub fn is_sorted(&self) -> (r: bool)
        ensures
            r == pieces_sorted(self.0@),
    {
        let n = self.0.len();
        if n < 2 {
            return true;
        }
        let mut i: usize = 0;
        while i + 1 < n
            invariant
                n == self.0@.len(),
                n >= 2,
                0 <= i < n,
                forall|j: int| 0 <= j < i ==> #[trigger] pair_in_order(self.0@, j),
            decreases n - i,
        {
            let ok = match (&self.0[i], &self.0[i + 1]) {
                (BoundOrFiller::Bound(x), BoundOrFiller::Bound(y)) => bounds_le(x, y),
                _ => true,
            };
            if !ok {
                assert(!pair_in_order(self.0@, i as int));
                return false;
            }
            i = i + 1;
        }
        true
    }
}

impl FromStr for UserBoundsList {
    type Err = BoundsError;

    fn from_str(s: &str) -> (r: Result<UserBoundsList, BoundsError>)
        ensures
            match r {
                Ok(l) => spec_parse_bounds_list(s@) == Ok::<Seq<Piece>, BoundsErrorView>(
                    pieces_view(l.0@),
                ),
                Err(e) => spec_parse_bounds_list(s@) == Err::<Seq<Piece>, BoundsErrorView>(e@),
            },
            r matches Ok(l) ==> bounds_valid(pieces_view(l.0@)),
    {
        UserBoundsList::parse(s)
    }
}

/// A piece that is a bound holds a valid bound.
pub open spec fn piece_valid(p: Piece) -> bool {
    match p {
        Piece::Bound(b) => is_valid_bound(b),
        Piece::Filler(_) => true,
    }
}

/// Every bound among the pieces is valid.
pub open spec fn bounds_valid(ps: Seq<Piece>) -> bool {
    forall|i: int| 0 <= i < ps.len() ==> #[trigger] piece_valid(ps[i])
}

proof fn lemma_concat_valid(a: Seq<Piece>, b: Seq<Piece>)
    requires
        bounds_valid(a),
        bounds_valid(b),
    ensures
        bounds_valid(a + b),
{
    assert forall|i: int| 0 <= i < (a + b).len() implies #[trigger] piece_valid((a + b)[i]) by {
        if i < a.len() {
            assert((a + b)[i] == a[i]);
        } else {
            assert((a + b)[i] == b[i - a.len()]);
        }
    }
}

proof fn lemma_prepend_valid(a: Seq<Piece>, r: Result<Seq<Piece>, BoundsErrorView>)
    requires
        bounds_valid(a),
        r matches Ok(x) ==> bounds_valid(x),
    ensures
        prepend(a, r) matches Ok(x) ==> bounds_valid(x),
{
    if let Ok(x) = r {
        lemma_concat_valid(a, x);
    }
}

proof fn lemma_bound_items_valid(s: Seq<char>)
    ensures
        spec_bound_items(s) matches Ok(ps) ==> bounds_valid(ps),
    decreases s.len(),
{
    lemma_first_index_of(s, ',');
    match first_index_of(s, ',') {
        None => {
            lemma_parsed_bound_is_valid(s);
        },
        Some(k) => {
            lemma_parsed_bound_is_valid(s.take(k));
            lemma_bound_items_valid(s.skip(k + 1));
            if let Ok(b) = spec_user_bounds(s.take(k)) {
                assert(piece_valid(seq![Piece::Bound(b)][0]));
                lemma_prepend_valid(seq![Piece::Bound(b)], spec_bound_items(s.skip(k + 1)));
            }
        },
    }
}

proof fn lemma_scan_format_valid(
    t: Seq<char>,
    i: int,
    prev: int,
    start: Option<int>,
    end: Option<int>,
)
    ensures
        scan_format(t, i, prev, start, end) matches Ok(ps) ==> bounds_valid(ps),
    decreases t.len() - i,
{
    if i < t.len() {
        if t[i] == '}' && start is Some {
            let st = start->0;
            lemma_bound_items_valid(t.subrange(st + 1, i));
            lemma_scan_format_valid(t, i + 1, i + 1, None, Some(i));
            if let Ok(bs) = spec_bound_items(t.subrange(st + 1, i)) {
                let fp = filler_piece(t.subrange(prev, st));
                assert(bounds_valid(fp));
                lemma_concat_valid(fp, bs);
                lemma_prepend_valid(fp + bs, scan_format(t, i + 1, i + 1, None, Some(i)));
            }
        } else if t[i] == '{' && start is None {
            lemma_scan_format_valid(t, i + 1, prev, Some(i), end);
        } else {
            lemma_scan_format_valid(t, i + 1, prev, start, end);
        }
    } else {
        if let Ok(ps) = scan_format(t, i, prev, start, end) {
            assert forall|j: int| 0 <= j < ps.len() implies #[trigger] piece_valid(ps[j]) by {}
        }
    }
}

proof fn lemma_scan_format_2_valid(s: Seq<char>, i: int, inside: bool, part: int)
    ensures
        scan_format_2(s, i, inside, part) matches Ok(ps) ==> bounds_valid(ps),
    decreases s.len() - i,
{
    if i < s.len() {
        let w0 = s[i];
        let w1 = if i + 1 < s.len() {
            s[i + 1]
        } else {
            'x'
        };
        if w0 == w1 && (w0 == '{' || w0 == '}') {
            lemma_scan_format_2_valid(s, i + 2, inside, part);
        } else if w0 == '}' && !inside {
        } else if w0 == '{' {
            lemma_scan_format_2_valid(s, i + 1, true, i + 1);
            let fill: Seq<Piece> = if i > part {
                seq![Piece::Filler(s.subrange(part, i))]
            } else {
                seq![]
            };
            assert(bounds_valid(fill));
            lemma_prepend_valid(fill, scan_format_2(s, i + 1, true, i + 1));
        } else if w0 == '}' {
            lemma_bound_items_valid(s.subrange(part, i));
            lemma_scan_format_2_valid(s, i + 1, false, i + 1);
            if let Ok(bs) = spec_bound_items(s.subrange(part, i)) {
                lemma_prepend_valid(bs, scan_format_2(s, i + 1, false, i + 1));
            }
        } else {
            lemma_scan_format_2_valid(s, i + 1, inside, part);
        }
    } else {
        if let Ok(ps) = scan_format_2(s, i, inside, part) {
            assert forall|j: int| 0 <= j < ps.len() implies #[trigger] piece_valid(ps[j]) by {}
        }
    }
}

/// Every bound in a list that `parse_bounds_list` reads is valid: no index
/// is 0, no left index is above the right one, no bound leaves out both
/// sides.
pub proof fn lemma_parse_bounds_list_valid(s: Seq<char>)
    ensures
        spec_parse_bounds_list(s) matches Ok(ps) ==> bounds_valid(ps),
{
    if has_brace(s) {
        lemma_scan_format_valid(escape_format(s), 0, 0, None, None);
    } else {
        lemma_bound_items_valid(s);
    }
}

/// Every bound in a list that `parse_bounds_list_2` reads is valid.
pub proof fn lemma_parse_bounds_list_2_valid(s: Seq<char>)
    ensures
        spec_parse_bounds_list_2(s) matches Ok(ps) ==> bounds_valid(ps),
{
    if has_brace(s) {
        lemma_scan_format_2_valid(s, 0, false, 0);
    } else {
        lemma_bound_items_valid(s);
    }
}

/// The text holds none of the escapes that `parse_bounds_list` takes out
/// (`{{`, `}}`, the two characters `\n`) nor the marks it puts in their place.
pub open spec fn no_escapes(s: Seq<char>) -> bool {
    &&& !contains_pat(s, seq!['{', '{'])
    &&& !contains_pat(s, seq!['}', '}'])
    &&& !contains_pat(s, seq!['\\', 'n'])
    &&& !contains_pat(s, "__tuc_open"@)
    &&& !contains_pat(s, "__tuc_close"@)
}

proof fn lemma_unescape_plain(s: Seq<char>, a: int, b: int)
    requires
        no_escapes(s),
        0 <= a <= b <= s.len(),
    ensures
        unescape_filler(s.subrange(a, b)) == s.subrange(a, b),
        filler_piece(s.subrange(a, b)) == (if a < b {
            seq![Piece::Filler(s.subrange(a, b))]
        } else {
            seq![]
        }),
{
    lemma_absent_in_subrange(s, "__tuc_open"@, a, b);
    lemma_absent_in_subrange(s, "__tuc_close"@, a, b);
    lemma_replace_absent(s.subrange(a, b), "__tuc_open"@, seq!['{', '{']);
    lemma_replace_absent(s.subrange(a, b), "__tuc_close"@, seq!['}', '}']);
}

/// Where `scan_format` has read `s` up to `i`, what `scan_format_2` reads
/// from the matching state.
pub open spec fn second_scan_rest(s: Seq<char>, i: int, prev: int, start: Option<int>) -> Result<
    Seq<Piece>,
    BoundsErrorView,
> {
    match start {
        None => scan_format_2(s, i, false, prev),
        Some(st) => prepend(filler_piece(s.subrange(prev, st)), scan_format_2(s, i, true, st + 1)),
    }
}

proof fn lemma_no_double(s: Seq<char>, i: int, c: char)
    requires
        no_escapes(s),
        0 <= i,
        i + 1 < s.len(),
        c == '{' || c == '}',
    ensures
        !(s[i] == c && s[i + 1] == c),
{
    if s[i] == c && s[i + 1] == c {
        assert(s.subrange(i, i + 2) =~= seq![c, c]);
        if c == '{' {
            assert(occurs_at(s, i, seq!['{', '{']));
        } else {
            assert(occurs_at(s, i, seq!['}', '}']));
        }
    }
}

proof fn lemma_scans_agree(s: Seq<char>, i: int, prev: int, start: Option<int>, end: Option<int>)
    requires
        no_escapes(s),
        0 <= prev <= i <= s.len(),
        start matches Some(st) ==> prev <= st < i,
        end matches Some(e) ==> prev == e + 1,
    ensures
        scan_format(s, i, prev, start, end) matches Ok(v) ==> second_scan_rest(s, i, prev, start)
            == Ok::<Seq<Piece>, BoundsErrorView>(v),
    decreases s.len() - i,
{
    if i >= s.len() {
        if start is None {
            lemma_unescape_plain(s, prev, s.len() as int);
        }
    } else {
        let c = s[i];
        if i + 1 < s.len() && (c == '{' || c == '}') {
            lemma_no_double(s, i, c);
        }
        if c == '}' && start is Some {
            let st = start->0;
            lemma_scans_agree(s, i + 1, i + 1, None, Some(i));
            lemma_unescape_plain(s, prev, st);
            if let Ok(bs) = spec_bound_items(s.subrange(st + 1, i)) {
                lemma_prepend_prepend(
                    filler_piece(s.subrange(prev, st)),
                    bs,
                    scan_format_2(s, i + 1, false, i + 1),
                );
                if let Ok(w) = scan_format(s, i + 1, i + 1, None, Some(i)) {
                    assert(filler_piece(s.subrange(prev, st)) + (bs + w) =~= (filler_piece(
                        s.subrange(prev, st),
                    ) + bs) + w);
                }
            }
        } else if c == '{' && start is None {
            lemma_scans_agree(s, i + 1, prev, Some(i), end);
            lemma_unescape_plain(s, prev, i);
        } else if c != '{' && c != '}' {
            lemma_scans_agree(s, i + 1, prev, start, end);
        }
    }
}

/// On text with no escapes, where `parse_bounds_list` reads a list, so does
/// `parse_bounds_list_2`, and it reads the same pieces.
pub proof fn lemma_parsers_agree(s: Seq<char>)
    requires
        no_escapes(s),
        spec_parse_bounds_list(s) is Ok,
    ensures
        spec_parse_bounds_list_2(s) == spec_parse_bounds_list(s),
{
    if has_brace(s) {
        lemma_replace_absent(s, seq!['{', '{'], "__tuc_open"@);
        lemma_replace_absent(s, seq!['}', '}'], "__tuc_close"@);
        lemma_replace_absent(s, seq!['\\', 'n'], seq!['\n']);
        assert(escape_format(s) == s);
        lemma_scans_agree(s, 0, 0, None, None);
    }
}

proof fn lemma_unescape_unmarked(f: Seq<char>)
    ensures
        !contains_pat(unescape_filler(f), "__tuc_open"@),
        !contains_pat(unescape_filler(f), "__tuc_close"@),
{
    reveal_strlit("__tuc_open");
    reveal_strlit("__tuc_close");
    let open = "__tuc_open"@;
    let close = "__tuc_close"@;
    let bo = seq!['{', '{'];
    let bc = seq!['}', '}'];
    assert(no_common_char(bo, open));
    assert(no_common_char(bc, close));
    assert(no_common_char(bc, open));
    let u1 = replace_all(f, open, bo);
    lemma_replace_leaves_no(f, open, bo, open);
    lemma_replace_leaves_no(u1, close, bc, close);
    lemma_replace_leaves_no(u1, close, bc, open);
}

/// The piece is no filler that holds one of the marks that stand for `{{`
/// and `}}` while a format string is read.
pub open spec fn piece_unmarked(p: Piece) -> bool {
    match p {
        Piece::Filler(f) => !contains_pat(f, "__tuc_open"@) && !contains_pat(f, "__tuc_close"@),
        Piece::Bound(_) => true,
    }
}

proof fn lemma_bound_items_are_bounds(s: Seq<char>)
    ensures
        spec_bound_items(s) matches Ok(ps) ==> forall|i: int| 0 <= i < ps.len() ==> #[trigger] ps[i] is Bound,
    decreases s.len(),
{
    lemma_first_index_of(s, ',');
    match first_index_of(s, ',') {
        None => {},
        Some(k) => {
            lemma_bound_items_are_bounds(s.skip(k + 1));
            if let Ok(b) = spec_user_bounds(s.take(k)) {
                if let Ok(rest) = spec_bound_items(s.skip(k + 1)) {
                    let ps = seq![Piece::Bound(b)] + rest;
                    assert forall|i: int| 0 <= i < ps.len() implies #[trigger] ps[i] is Bound by {
                        if i > 0 {
                            assert(ps[i] == rest[i - 1]);
                        }
                    }
                }
            }
        },
    }
}

proof fn lemma_concat_unmarked(a: Seq<Piece>, b: Seq<Piece>)
    requires
        forall|i: int| 0 <= i < a.len() ==> #[trigger] piece_unmarked(a[i]),
        forall|i: int| 0 <= i < b.len() ==> #[trigger] piece_unmarked(b[i]),
    ensures
        forall|i: int| 0 <= i < (a + b).len() ==> #[trigger] piece_unmarked((a + b)[i]),
{
    assert forall|i: int| 0 <= i < (a + b).len() implies #[trigger] piece_unmarked((a + b)[i]) by {
        if i < a.len() {
            assert((a + b)[i] == a[i]);
        } else {
            assert((a + b)[i] == b[i - a.len()]);
        }
    }
}

proof fn lemma_filler_piece_unmarked(f: Seq<char>)
    ensures
        forall|i: int| 0 <= i < filler_piece(f).len() ==> #[trigger] piece_unmarked(filler_piece(f)[i]),
{
    lemma_unescape_unmarked(f);
}

proof fn lemma_scan_format_unmarked(
    t: Seq<char>,
    i: int,
    prev: int,
    start: Option<int>,
    end: Option<int>,
)
    ensures
        scan_format(t, i, prev, start, end) matches Ok(ps) ==> forall|k: int|
            0 <= k < ps.len() ==> #[trigger] piece_unmarked(ps[k]),
    decreases t.len() - i,
{
    if i < t.len() {
        if t[i] == '}' && start is Some {
            let st = start->0;
            lemma_bound_items_are_bounds(t.subrange(st + 1, i));
            lemma_scan_format_unmarked(t, i + 1, i + 1, None, Some(i));
            if let Ok(bs) = spec_bound_items(t.subrange(st + 1, i)) {
                if let Ok(rest) = scan_format(t, i + 1, i + 1, None, Some(i)) {
                    let fp = filler_piece(t.subrange(prev, st));
                    lemma_filler_piece_unmarked(t.subrange(prev, st));
                    assert forall|k: int| 0 <= k < bs.len() implies #[trigger] piece_unmarked(
                        bs[k],
                    ) by {
                        assert(bs[k] is Bound);
                    }
                    lemma_concat_unmarked(fp, bs);
                    lemma_concat_unmarked(fp + bs, rest);
                }
            }
        } else if t[i] == '{' && start is None {
            lemma_scan_format_unmarked(t, i + 1, prev, Some(i), end);
        } else {
            lemma_scan_format_unmarked(t, i + 1, prev, start, end);
        }
    } else {
        match end {
            Some(e) => {
                if e < t.len() - 1 {
                    lemma_unescape_unmarked(t.subrange(e + 1, t.len() as int));
                }
            },
            None => {
                lemma_filler_piece_unmarked(t.subrange(prev, t.len() as int));
            },
        }
    }
}

/// No filler that `parse_bounds_list` reads holds `__tuc_open` or
/// `__tuc_close`, the marks that stand for `{{` and `}}` while the text is
/// read: each filler has them turned back into braces.
pub proof fn lemma_parse_bounds_list_fillers_unmarked(s: Seq<char>)
    ensures
        spec_parse_bounds_list(s) matches Ok(ps) ==> forall|i: int|
            0 <= i < ps.len() && #[trigger] ps[i] is Filler ==> !contains_pat(
                ps[i]->Filler_0,
                "__tuc_open"@,
            ) && !contains_pat(ps[i]->Filler_0, "__tuc_close"@),
{
    if has_brace(s) {
        if s.len() != 1 {
            lemma_scan_format_unmarked(escape_format(s), 0, 0, None, None);
            if let Ok(ps) = spec_parse_bounds_list(s) {
                assert forall|i: int| 0 <= i < ps.len() && #[trigger] ps[i] is Filler implies !contains_pat(
                    ps[i]->Filler_0,
                    "__tuc_open"@,
                ) && !contains_pat(ps[i]->Filler_0, "__tuc_close"@) by {
                    assert(piece_unmarked(ps[i]));
                }
            }
        }
    } else {
        lemma_bound_items_are_bounds(s);
    }
}

/// The list is sorted exactly when each bound that is followed at once by
/// another bound does not come after it.
pub proof fn lemma_sorted_iff_neighbours_in_order(v: Seq<BoundOrFiller>)
    ensures
        pieces_sorted(v) <==> forall|i: int|
            0 <= i < v.len() - 1 && #[trigger] v[i] is Bound && v[i + 1] is Bound ==> bounds_order(
                v[i]->Bound_0,
                v[i + 1]->Bound_0,
            ) != Ordering::Greater,
{
    if pieces_sorted(v) {
        assert forall|i: int|
            0 <= i < v.len() - 1 && #[trigger] v[i] is Bound && v[i + 1] is Bound implies bounds_order(
            v[i]->Bound_0,
            v[i + 1]->Bound_0,
        ) != Ordering::Greater by {
            assert(pair_in_order(v, i));
        }
    }
    if forall|i: int|
        0 <= i < v.len() - 1 && #[trigger] v[i] is Bound && v[i + 1] is Bound ==> bounds_order(
            v[i]->Bound_0,
            v[i + 1]->Bound_0,
        ) != Ordering::Greater {
        assert forall|i: int| 0 <= i < v.len() - 1 implies #[trigger] pair_in_order(v, i) by {
            if v[i] is Bound && v[i + 1] is Bound {
                assert(bounds_order(v[i]->Bound_0, v[i + 1]->Bound_0) != Ordering::Greater);
            }
        }
    }
}

/// A list has a bound with a side above 0 exactly when some piece, wherever
/// it stands, is a bound whose left or right index is above 0; and likewise
/// for a side of 0 or below. So a list is sortable exactly when its bounds,
/// all of them, do not mix the two.
pub proof fn lemma_sortable_sees_every_bound(v: Seq<BoundOrFiller>)
    ensures
        has_positive_index(v) <==> exists|i: int|
            0 <= i < v.len() && #[trigger] v[i] is Bound && ((v[i]->Bound_0.l is Index
                && v[i]->Bound_0.l->Index_0 > 0) || (v[i]->Bound_0.r is Index
                && v[i]->Bound_0.r->Index_0 > 0)),
        has_non_positive_index(v) <==> exists|i: int|
            0 <= i < v.len() && #[trigger] v[i] is Bound && ((v[i]->Bound_0.l is Index
                && v[i]->Bound_0.l->Index_0 <= 0) || (v[i]->Bound_0.r is Index
                && v[i]->Bound_0.r->Index_0 <= 0)),
{
    if has_positive_index(v) {
        let i = choose|i: int| 0 <= i < v.len() && #[trigger] piece_has_positive(v[i]);
        assert(v[i] is Bound);
    }
    if exists|i: int|
        0 <= i < v.len() && #[trigger] v[i] is Bound && ((v[i]->Bound_0.l is Index
            && v[i]->Bound_0.l->Index_0 > 0) || (v[i]->Bound_0.r is Index
            && v[i]->Bound_0.r->Index_0 > 0)) {
        let i = choose|i: int|
            0 <= i < v.len() && #[trigger] v[i] is Bound && ((v[i]->Bound_0.l is Index
                && v[i]->Bound_0.l->Index_0 > 0) || (v[i]->Bound_0.r is Index
                && v[i]->Bound_0.r->Index_0 > 0));
        assert(piece_has_positive(v[i]));
    }
    if has_non_positive_index(v) {
        let i = choose|i: int| 0 <= i < v.len() && #[trigger] piece_has_non_positive(v[i]);
        assert(v[i] is Bound);
    }
    if exists|i: int|
        0 <= i < v.len() && #[trigger] v[i] is Bound && ((v[i]->Bound_0.l is Index
            && v[i]->Bound_0.l->Index_0 <= 0) || (v[i]->Bound_0.r is Index
            && v[i]->Bound_0.r->Index_0 <= 0)) {
        let i = choose|i: int|
            0 <= i < v.len() && #[trigger] v[i] is Bound && ((v[i]->Bound_0.l is Index
                && v[i]->Bound_0.l->Index_0 <= 0) || (v[i]->Bound_0.r is Index
                && v[i]->Bound_0.r->Index_0 <= 0));
        assert(piece_has_non_positive(v[i]));
    }
}

} // verus!
