//! Bounds over the parts of a line: `1`, `-1`, `1:3`, `:3`, `1:` and their
//! lists, with the format strings that embed them (`"Hello {1}, found {2:3}"`).
use vstd::prelude::*;
use std::cmp::Ordering;
use std::ops::Range;
use std::str::FromStr;

use crate::number::{
    int_decimal, lemma_int_decimal_chars, lemma_parse_int_decimal, parse_i32, push_i32_decimal,
    spec_parse_i32,
};
use crate::text::{
    chars_of, find_char, first_index_of, lemma_first_index_of, lemma_first_index_of_is, string_of,
};

verus! {

/// What a bound counts.
#[derive(Debug, PartialEq, Eq, Structural)]
pub enum BoundsType {
    Bytes,
    Characters,
    Fields,
    Lines,
}

/// One side of a bound: a 1-based index (negative: counted from the end),
/// or `Continue`, no limit on that side.
#[derive(Debug, Clone, Copy, PartialEq, Eq, Structural)]
pub enum Side {
    Index(i32),
    Continue,
}

/// A bound `l:r`.
#[derive(Debug, Clone, PartialEq, Eq, Structural)]
pub struct UserBounds {
    pub l: Side,
    pub r: Side,
}

/// A piece of a format string: a bound, or text to print as it is.
#[derive(Debug, PartialEq)]
pub enum BoundOrFiller {
    Bound(UserBounds),
    Filler(String),
}

/// The pieces of a bounds list, in order.
#[derive(Debug)]
pub struct UserBoundsList(pub Vec<BoundOrFiller>);

/// Why a bound, a list of bounds or a lookup was refused.
#[derive(Debug, Clone, PartialEq, Eq)]
pub enum BoundsError {
    EmptyField,
    NoNumbersNextToColon,
    NotANumber(String),
    ZeroField,
    LeftGreaterThanRight,
    MissingClosingParenthesis,
    MissingOpeningParenthesis,
    SignMismatch { idx: i32, bounds: UserBounds },
    OutOfBounds(i32),
}

/// `BoundsError` with its text as a sequence of characters.
pub enum BoundsErrorView {
    EmptyField,
    NoNumbersNextToColon,
    NotANumber(Seq<char>),
    ZeroField,
    LeftGreaterThanRight,
    MissingClosingParenthesis,
    MissingOpeningParenthesis,
    SignMismatch { idx: i32, bounds: UserBounds },
    OutOfBounds(i32),
}

impl View for BoundsError {
    type V = BoundsErrorView;

    open spec fn view(&self) -> BoundsErrorView {
        match self {
            BoundsError::EmptyField => BoundsErrorView::EmptyField,
            BoundsError::NoNumbersNextToColon => BoundsErrorView::NoNumbersNextToColon,
            BoundsError::NotANumber(s) => BoundsErrorView::NotANumber(s@),
            BoundsError::ZeroField => BoundsErrorView::ZeroField,
            BoundsError::LeftGreaterThanRight => BoundsErrorView::LeftGreaterThanRight,
            BoundsError::MissingClosingParenthesis => BoundsErrorView::MissingClosingParenthesis,
            BoundsError::MissingOpeningParenthesis => BoundsErrorView::MissingOpeningParenthesis,
            BoundsError::SignMismatch { idx, bounds } => BoundsErrorView::SignMismatch {
                idx: *idx,
                bounds: *bounds,
            },
            BoundsError::OutOfBounds(v) => BoundsErrorView::OutOfBounds(*v),
        }
    }
}

/// `BoundOrFiller` with the filler's text as a sequence of characters.
pub enum Piece {
    Bound(UserBounds),
    Filler(Seq<char>),
}

impl View for BoundOrFiller {
    type V = Piece;

    open spec fn view(&self) -> Piece {
        match self {
            BoundOrFiller::Bound(b) => Piece::Bound(*b),
            BoundOrFiller::Filler(s) => Piece::Filler(s@),
        }
    }
}

/// The pieces of `v` as values.
pub open spec fn pieces_view(v: Seq<BoundOrFiller>) -> Seq<Piece> {
    v.map_values(|p: BoundOrFiller| p@)
}

/// A result with its error taken by its view.
pub open spec fn result_view<T>(r: Result<T, BoundsError>) -> Result<T, BoundsErrorView> {
    match r {
        Ok(v) => Ok(v),
        Err(e) => Err(e@),
    }
}

/// A list result with its pieces and its error taken by their views.
pub open spec fn list_view(r: Result<Vec<BoundOrFiller>, BoundsError>) -> Result<
    Seq<Piece>,
    BoundsErrorView,
> {
    match r {
        Ok(v) => Ok(pieces_view(v@)),
        Err(e) => Err(e@),
    }
}

/// The message that the error prints.
pub open spec fn error_message(e: BoundsErrorView) -> Seq<char> {
    match e {
        BoundsErrorView::EmptyField => "Field format error: empty field"@,
        BoundsErrorView::NoNumbersNextToColon => "Field format error, no numbers next to `:`"@,
        BoundsErrorView::NotANumber(s) => "Not a number `"@ + s + "`"@,
        BoundsErrorView::ZeroField => "Field value 0 is not allowed (fields are 1-indexed)"@,
        BoundsErrorView::LeftGreaterThanRight =>
            "Field left value cannot be greater than right value"@,
        BoundsErrorView::MissingClosingParenthesis =>
            "Field format error: missing closing parenthesis"@,
        BoundsErrorView::MissingOpeningParenthesis =>
            "Field format error: missing opening parenthesis"@,
        BoundsErrorView::SignMismatch { idx, bounds } => "sign mismatch. Can't verify if index "@
            + int_decimal(idx as int) + " is between bounds "@ + bounds_text(bounds),
        BoundsErrorView::OutOfBounds(v) => "Out of bounds: "@ + int_decimal(v as int),
    }
}

/// How a side prints: its index in decimal, or nothing.
pub open spec fn side_text(s: Side) -> Seq<char> {
    match s {
        Side::Index(v) => int_decimal(v as int),
        Side::Continue => Seq::empty(),
    }
}

/// How a bound prints: `1:-1` for the whole line, one index for `n:n`,
/// `l:r` otherwise.
pub open spec fn bounds_text(b: UserBounds) -> Seq<char> {
    if b.l == Side::Continue && b.r == Side::Continue {
        "1:-1"@
    } else if b.l == b.r {
        side_text(b.l)
    } else {
        side_text(b.l) + seq![':'] + side_text(b.r)
    }
}

/// A side as the text `s` gives it: nothing is `Continue`, else an `i32`.
pub open spec fn spec_side(s: Seq<char>) -> Result<Side, BoundsErrorView> {
    if s.len() == 0 {
        Ok(Side::Continue)
    } else {
        match spec_parse_i32(s) {
            Some(v) => Ok(Side::Index(v)),
            None => Err(BoundsErrorView::NotANumber(s)),
        }
    }
}

/// The bound that the text `s` gives: `n` is `n:n`; around the first `:`
/// stand the left and the right side, either of which may be left out.
/// Index 0 is refused, and so is a left index above the right one.
pub open spec fn spec_user_bounds(s: Seq<char>) -> Result<UserBounds, BoundsErrorView> {
    if s.len() == 0 {
        Err(BoundsErrorView::EmptyField)
    } else if s == seq![':'] {
        Err(BoundsErrorView::NoNumbersNextToColon)
    } else {
        let sides: Result<(Side, Side), BoundsErrorView> = match first_index_of(s, ':') {
            None => match spec_side(s) {
                Ok(x) => Ok((x, x)),
                Err(e) => Err(e),
            },
            Some(k) => match spec_side(s.take(k)) {
                Err(e) => Err(e),
                Ok(l) => match spec_side(s.skip(k + 1)) {
                    Err(e) => Err(e),
                    Ok(r) => Ok((l, r)),
                },
            },
        };
        match sides {
            Err(e) => Err(e),
            Ok((l, r)) => if l == Side::Index(0) || r == Side::Index(0) {
                Err(BoundsErrorView::ZeroField)
            } else if l matches Side::Index(a) && r matches Side::Index(b) && b < a {
                Err(BoundsErrorView::LeftGreaterThanRight)
            } else {
                Ok(UserBounds { l, r })
            },
        }
    }
}

/// A bound that a text can give: no side is 0, the left index is not above
/// the right one, and not both sides are left out.
pub open spec fn is_valid_bound(b: UserBounds) -> bool {
    &&& b.l != Side::Index(0)
    &&& b.r != Side::Index(0)
    &&& (match (b.l, b.r) {
        (Side::Index(a), Side::Index(c)) => a <= c,
        _ => true,
    })
    &&& !(b.l == Side::Continue && b.r == Side::Continue)
}

/// `a` and `b` are of opposite signs: one above 0, the other below.
pub open spec fn opposite_signs(a: i32, b: i32) -> bool {
    (a < 0 && b > 0) || (a > 0 && b < 0)
}

/// `a` and `b` are both above 0 or both below 0.
pub open spec fn same_sign(a: i32, b: i32) -> bool {
    (a > 0 && b > 0) || (a < 0 && b < 0)
}

/// What `matches` answers for `idx`: an error where a side has the other
/// sign than `idx`, else whether `idx` lies between the sides.
pub open spec fn spec_matches(b: UserBounds, idx: i32) -> Result<bool, BoundsErrorView> {
    if (b.l matches Side::Index(a) && opposite_signs(a, idx)) || (b.r matches Side::Index(c)
        && opposite_signs(c, idx)) {
        Err(BoundsErrorView::SignMismatch { idx, bounds: b })
    } else {
        Ok(
            (b.l matches Side::Index(a) ==> a <= idx) && (b.r matches Side::Index(c) ==> idx <= c),
        )
    }
}

/// `x` ends where `y` starts or before: the right index of `x` and the
/// left index of `y` have one sign, and the first is not above the second.
pub open spec fn ends_before(x: UserBounds, y: UserBounds) -> bool {
    match (x.r, y.l) {
        (Side::Index(a), Side::Index(b)) => same_sign(a, b) && a <= b,
        _ => false,
    }
}

/// `a` comes before `b` as left sides: a left side that is left out first,
/// then the indexes in increasing order.
pub open spec fn left_side_before(a: Side, b: Side) -> bool {
    match (a, b) {
        (Side::Continue, Side::Index(_)) => true,
        (Side::Index(u), Side::Index(v)) => u < v,
        _ => false,
    }
}

/// `a` comes before `b` as right sides: the indexes in increasing order,
/// then a right side that is left out.
pub open spec fn right_side_before(a: Side, b: Side) -> bool {
    match (a, b) {
        (Side::Index(_), Side::Continue) => true,
        (Side::Index(u), Side::Index(v)) => u < v,
        _ => false,
    }
}

/// The order of two bounds: equal bounds are `Equal`; `x` is `Less` when it
/// ends where `y` starts or before, and `Greater` when `y` ends where `x`
/// starts or before; other bounds go by their left sides, then by their
/// right sides.
pub open spec fn bounds_order(x: UserBounds, y: UserBounds) -> Ordering {
    if x == y {
        Ordering::Equal
    } else if ends_before(x, y) {
        Ordering::Less
    } else if ends_before(y, x) {
        Ordering::Greater
    } else if left_side_before(x.l, y.l) || (x.l == y.l && right_side_before(x.r, y.r)) {
        Ordering::Less
    } else {
        Ordering::Greater
    }
}

/// The order the other way round.
pub open spec fn reversed(o: Ordering) -> Ordering {
    match o {
        Ordering::Less => Ordering::Greater,
        Ordering::Equal => Ordering::Equal,
        Ordering::Greater => Ordering::Less,
    }
}

/// Whether `x` ends where `y` starts or before.
pub fn ends_before_exec(x: &UserBounds, y: &UserBounds) -> (r: bool)
    ensures
        r == ends_before(*x, *y),
{
    match (x.r, y.l) {
        (Side::Index(a), Side::Index(b)) => ((a > 0 && b > 0) || (a < 0 && b < 0)) && a <= b,
        _ => false,
    }
}

/// Whether `a` comes before `b` as left sides.
pub fn left_side_before_exec(a: Side, b: Side) -> (r: bool)
    ensures
        r == left_side_before(a, b),
{
    match (a, b) {
        (Side::Continue, Side::Index(_)) => true,
        (Side::Index(u), Side::Index(v)) => u < v,
        _ => false,
    }
}

/// Whether `a` comes before `b` as right sides.
pub fn right_side_before_exec(a: Side, b: Side) -> (r: bool)
    ensures
        r == right_side_before(a, b),
{
    match (a, b) {
        (Side::Index(_), Side::Continue) => true,
        (Side::Index(u), Side::Index(v)) => u < v,
        _ => false,
    }
}

/// The start of the range: `Continue` is 0; `v > 0` is `v - 1`; `v < 0`
/// counts from the end.
pub open spec fn range_start(len: int, s: Side) -> Option<int> {
    match s {
        Side::Continue => Some(0),
        Side::Index(v) => if abs(v as int) > len {
            None
        } else if v < 0 {
            Some(len + v)
        } else {
            Some(v - 1)
        },
    }
}

/// The end of the range: `Continue` is the length; `v > 0` is `v`; `v < 0`
/// counts from the end.
pub open spec fn range_end(len: int, s: Side) -> Option<int> {
    match s {
        Side::Continue => Some(len),
        Side::Index(v) => if abs(v as int) > len {
            None
        } else if v < 0 {
            Some(len + v + 1)
        } else {
            Some(v as int)
        },
    }
}

pub open spec fn abs(v: int) -> int {
    if v < 0 {
        -v
    } else {
        v
    }
}

/// The arithmetic of `bounds_to_std_range` stays within its types.
pub open spec fn range_defined(len: int, b: UserBounds) -> bool {
    &&& (b.l matches Side::Index(v) ==> v != 0 && v != i32::MIN)
    &&& (range_start(len, b.l) is Some ==> (b.r matches Side::Index(v) ==> v != i32::MIN))
}

/// The range that `bounds_to_std_range` gives, or the side that lies out.
pub open spec fn spec_range(len: int, b: UserBounds) -> Result<(int, int), BoundsErrorView> {
    match range_start(len, b.l) {
        None => Err(BoundsErrorView::OutOfBounds(b.l->Index_0)),
        Some(start) => match range_end(len, b.r) {
            None => Err(BoundsErrorView::OutOfBounds(b.r->Index_0)),
            Some(end) => Ok((start, end)),
        },
    }
}

impl BoundsError {
    /// The message of the error.
    pub fn to_string(&self) -> (m: String)
        ensures
            m@ == error_message(self@),
    {
        match self {
            BoundsError::EmptyField => "Field format error: empty field".to_owned(),
            BoundsError::NoNumbersNextToColon => "Field format error, no numbers next to `:`".to_owned(),
            BoundsError::NotANumber(s) => {
                let mut m = "Not a number `".to_owned();
                m.append(s.as_str());
                m.append("`");
                m
            },
            BoundsError::ZeroField => "Field value 0 is not allowed (fields are 1-indexed)".to_owned(),
            BoundsError::LeftGreaterThanRight => "Field left value cannot be greater than right value".to_owned(),
            BoundsError::MissingClosingParenthesis => "Field format error: missing closing parenthesis".to_owned(),
            BoundsError::MissingOpeningParenthesis => "Field format error: missing opening parenthesis".to_owned(),
            BoundsError::SignMismatch { idx, bounds } => {
                let mut m = "sign mismatch. Can't verify if index ".to_owned();
                let mut digits: Vec<char> = Vec::new();
                push_i32_decimal(*idx, &mut digits);
                let d = string_of(digits.as_slice(), 0, digits.len());
                m.append(d.as_str());
                m.append(" is between bounds ");
                let b = bounds.to_string();
                m.append(b.as_str());
                m
            },
            BoundsError::OutOfBounds(v) => {
                let mut m = "Out of bounds: ".to_owned();
                let mut digits: Vec<char> = Vec::new();
                push_i32_decimal(*v, &mut digits);
                let d = string_of(digits.as_slice(), 0, digits.len());
                m.append(d.as_str());
                m
            },
        }
    }
}

impl Side {
    /// Appends the text of the side.
    pub fn push_text(&self, out: &mut Vec<char>)
        ensures
            final(out)@ == old(out)@ + side_text(*self),
    {
        match self {
            Side::Index(v) => push_i32_decimal(*v, out),
            Side::Continue => {
                assert(out@ =~= out@ + side_text(*self));
            },
        }
    }

    /// The text of the side: its index, or nothing.
    pub fn to_string(&self) -> (s: String)
        ensures
            s@ == side_text(*self),
    {
        let mut v: Vec<char> = Vec::new();
        self.push_text(&mut v);
        assert(v@ =~= side_text(*self));
        string_of(v.as_slice(), 0, v.len())
    }

    /// Reads a side: the empty text is `Continue`, else an `i32`.
    pub fn parse(s: &str) -> (r: Result<Side, BoundsError>)
        ensures
            result_view(r) == spec_side(s@),
    {
        let v = chars_of(s);
        assert(v@.subrange(0, v@.len() as int) =~= v@);
        parse_side_chars(v.as_slice(), 0, v.len())
    }
}

impl FromStr for Side {
    type Err = BoundsError;

    fn from_str(s: &str) -> (r: Result<Side, BoundsError>)
        ensures
            result_view(r) == spec_side(s@),
    {
        Side::parse(s)
    }
}

/// Reads the side that `s[lo..hi]` gives.
pub fn parse_side_chars(s: &[char], lo: usize, hi: usize) -> (r: Result<Side, BoundsError>)
    requires
        lo <= hi <= s@.len(),
    ensures
        result_view(r) == spec_side(s@.subrange(lo as int, hi as int)),
{
    if lo == hi {
        return Ok(Side::Continue);
    }
    match parse_i32(s, lo, hi) {
        Some(v) => Ok(Side::Index(v)),
        None => Err(BoundsError::NotANumber(string_of(s, lo, hi))),
    }
}

/// Reads the bound that `s[lo..hi]` gives.
pub fn parse_user_bounds_chars(s: &[char], lo: usize, hi: usize) -> (r: Result<
    UserBounds,
    BoundsError,
>)
    requires
        lo <= hi <= s@.len(),
    ensures
        result_view(r) == spec_user_bounds(s@.subrange(lo as int, hi as int)),
{
    let ghost t = s@.subrange(lo as int, hi as int);
    if lo == hi {
        return Err(BoundsError::EmptyField);
    }
    if hi - lo == 1 && s[lo] == ':' {
        assert(t =~= seq![':']);
        return Err(BoundsError::NoNumbersNextToColon);
    }
    assert(t != seq![':']) by {
        if t == seq![':'] {
            assert(t[0] == s@[lo as int]);
        }
    }
    let (l, r) = match find_char(s, lo, hi, ':') {
        None => match parse_side_chars(s, lo, hi) {
            Ok(side) => (side, side),
            Err(e) => {
                return Err(e);
            },
        },
        Some(k) => {
            assert(t.take(k - lo) =~= s@.subrange(lo as int, k as int));
            assert(t.skip(k - lo + 1) =~= s@.subrange(k + 1, hi as int));
            let l = match parse_side_chars(s, lo, k) {
                Ok(x) => x,
                Err(e) => {
                    return Err(e);
                },
            };
            let r = match parse_side_chars(s, k + 1, hi) {
                Ok(x) => x,
                Err(e) => {
                    return Err(e);
                },
            };
            (l, r)
        },
    };
    if l == Side::Index(0) || r == Side::Index(0) {
        return Err(BoundsError::ZeroField);
    }
    match (l, r) {
        (Side::Index(left), Side::Index(right)) => {
            if right < left {
                return Err(BoundsError::LeftGreaterThanRight);
            }
        },
        _ => {},
    }
    Ok(UserBounds::new(l, r))
}

impl UserBounds {
    /// The bound `l:r`.
    pub fn new(l: Side, r: Side) -> (b: Self)
        ensures
            b == (UserBounds { l, r }),
    {
        UserBounds { l, r }
    }

    /// Reads a bound: `n`, `l:r`, `:r` or `l:`.
    pub fn parse(s: &str) -> (r: Result<UserBounds, BoundsError>)
        ensures
            result_view(r) == spec_user_bounds(s@),
            r matches Ok(b) ==> is_valid_bound(b),
    {
        let v = chars_of(s);
        assert(v@.subrange(0, v@.len() as int) =~= v@);
        let r = parse_user_bounds_chars(v.as_slice(), 0, v.len());
        proof {
            lemma_parsed_bound_is_valid(s@);
        }
        r
    }

    /// Appends the text of the bound.
    pub fn push_text(&self, out: &mut Vec<char>)
        ensures
            final(out)@ == old(out)@ + bounds_text(*self),
    {
        let ghost start = out@;
        if self.l == Side::Continue && self.r == Side::Continue {
            out.push('1');
            out.push(':');
            out.push('-');
            out.push('1');
            proof {
                reveal_strlit("1:-1");
            }
            assert(out@ =~= start + "1:-1"@);
        } else if self.l == self.r {
            self.l.push_text(out);
        } else {
            self.l.push_text(out);
            out.push(':');
            self.r.push_text(out);
            assert(out@ =~= start + bounds_text(*self));
        }
    }

    /// The text of the bound, as it prints.
    pub fn to_string(&self) -> (s: String)
        ensures
            s@ == bounds_text(*self),
    {
        let mut v: Vec<char> = Vec::new();
        self.push_text(&mut v);
        assert(v@ =~= bounds_text(*self));
        string_of(v.as_slice(), 0, v.len())
    }

    /// Whether `idx` lies between the sides. An index of the other sign
    /// than a side is refused: where it falls depends on the number of parts.
    pub fn matches(&self, idx: i32) -> (r: Result<bool, BoundsError>)
        ensures
            result_view(r) == spec_matches(*self, idx),
    {
        match self.l {
            Side::Index(left) => {
                if (left < 0 && idx > 0) || (left > 0 && idx < 0) {
                    return Err(BoundsError::SignMismatch { idx, bounds: UserBounds { l: self.l, r: self.r } });
                }
            },
            Side::Continue => {},
        }
        match self.r {
            Side::Index(right) => {
                if (right < 0 && idx > 0) || (right > 0 && idx < 0) {
                    return Err(BoundsError::SignMismatch { idx, bounds: UserBounds { l: self.l, r: self.r } });
                }
            },
            Side::Continue => {},
        }
        match (self.l, self.r) {
            (Side::Continue, Side::Continue) => Ok(true),
            (Side::Index(left), Side::Index(right)) => Ok(left <= idx && idx <= right),
            (Side::Continue, Side::Index(right)) => Ok(idx <= right),
            (Side::Index(left), Side::Continue) => Ok(left <= idx),
        }
    }

    /// Compares two bounds: a bound that ends where the other starts or
    /// before comes first; other bounds go by their left sides, then by their
    /// right sides. The answer means something only where the indexes have
    /// one sign: `-1` and `3` cannot be ordered without the number of parts.
    pub fn cmp(&self, other: &Self) -> (o: Ordering)
        ensures
            o == bounds_order(*self, *other),
    {
        if *self == *other {
            Ordering::Equal
        } else if ends_before_exec(self, other) {
            Ordering::Less
        } else if ends_before_exec(other, self) {
            Ordering::Greater
        } else if left_side_before_exec(self.l, other.l) || (self.l == other.l
            && right_side_before_exec(self.r, other.r)) {
            Ordering::Less
        } else {
            Ordering::Greater
        }
    }
}

impl PartialOrd for UserBounds {
    /// The order of `cmp`, which is always defined.
    fn partial_cmp(&self, other: &Self) -> (o: Option<Ordering>) {
        Some(self.cmp(other))
    }
}

impl vstd::std_specs::cmp::PartialOrdSpecImpl for UserBounds {
    open spec fn obeys_partial_cmp_spec() -> bool {
        true
    }

    open spec fn partial_cmp_spec(&self, other: &Self) -> Option<Ordering> {
        Some(bounds_order(*self, *other))
    }
}

impl FromStr for UserBounds {
    type Err = BoundsError;

    fn from_str(s: &str) -> (r: Result<UserBounds, BoundsError>)
        ensures
            result_view(r) == spec_user_bounds(s@),
            r matches Ok(b) ==> is_valid_bound(b),
    {
        UserBounds::parse(s)
    }
}

impl Default for UserBounds {
    fn default() -> (b: Self)
        ensures
            b == (UserBounds { l: Side::Index(1), r: Side::Index(1) }),
    {
        UserBounds::new(Side::Index(1), Side::Index(1))
    }
}

/// A bound that a text gives is valid.
pub proof fn lemma_parsed_bound_is_valid(s: Seq<char>)
    ensures
        spec_user_bounds(s) matches Ok(b) ==> is_valid_bound(b),
{
    if s.len() > 0 && s != seq![':'] {
        lemma_first_index_of(s, ':');
        match first_index_of(s, ':') {
            Some(k) => {
                let left = spec_side(s.take(k));
                let right = spec_side(s.skip(k + 1));
                if left == Ok::<Side, BoundsErrorView>(Side::Continue) {
                    if right == Ok::<Side, BoundsErrorView>(Side::Continue) {
                        assert(s.take(k).len() == 0);
                        assert(s.skip(k + 1).len() == 0);
                        assert(s =~= seq![':']);
                    }
                }
            },
            None => {},
        }
    }
}

/// The range of part positions that the bound selects among `parts_length`
/// parts; a side beyond the number of parts is refused.
pub fn bounds_to_std_range(parts_length: usize, bounds: &UserBounds) -> (r: Result<
    Range<usize>,
    BoundsError,
>)
    requires
        range_defined(parts_length as int, *bounds),
    ensures
        match r {
            Ok(range) => spec_range(parts_length as int, *bounds) == Ok::<(int, int), BoundsErrorView>(
                (range.start as int, range.end as int),
            ),
            Err(e) => spec_range(parts_length as int, *bounds) == Err::<(int, int), BoundsErrorView>(e@),
        },
{
    let start: usize = match bounds.l {
        Side::Continue => 0,
        Side::Index(v) => {
            let a: u32 = if v < 0 { (-(v as i64)) as u32 } else { v as u32 };
            if a as usize > parts_length {
                return Err(BoundsError::OutOfBounds(v));
            }
            if v < 0 {
                parts_length - a as usize
            } else {
                a as usize - 1
            }
        },
    };
    let end: usize = match bounds.r {
        Side::Continue => parts_length,
        Side::Index(v) => {
            let a: u32 = if v < 0 { (-(v as i64)) as u32 } else { v as u32 };
            if a as usize > parts_length {
                return Err(BoundsError::OutOfBounds(v));
            }
            if v < 0 {
                parts_length - a as usize + 1
            } else {
                a as usize
            }
        },
    };
    Ok(Range { start, end })
}

/// The text of a side that is an index reads back as that side, and holds
/// no `:`.
proof fn lemma_side_text(v: i32)
    ensures
        spec_side(side_text(Side::Index(v))) == Ok::<Side, BoundsErrorView>(Side::Index(v)),
        side_text(Side::Index(v)).len() > 0,
        forall|i: int|
            0 <= i < side_text(Side::Index(v)).len() ==> #[trigger] side_text(Side::Index(v))[i]
                != ':',
        side_text(Side::Index(v))[0] != ':',
{
    lemma_int_decimal_chars(v as int);
    lemma_parse_int_decimal(v);
    let t = side_text(Side::Index(v));
    assert forall|i: int| 0 <= i < t.len() implies #[trigger] t[i] != ':' by {
        if i == 0 {
            assert(crate::number::is_digit(t[0]) || t[0] == '-');
        } else {
            assert(crate::number::is_digit(t[i]));
        }
    }
}

/// Printing a valid bound and reading the text back gives the same bound.
pub proof fn lemma_bounds_text_parses_back(b: UserBounds)
    requires
        is_valid_bound(b),
    ensures
        spec_user_bounds(bounds_text(b)) == Ok::<UserBounds, BoundsErrorView>(b),
{
    let t = bounds_text(b);
    match (b.l, b.r) {
        (Side::Index(a), Side::Index(c)) => {
            lemma_side_text(a);
            lemma_side_text(c);
            if a == c {
                lemma_first_index_of_is(t, ':', t.len() as int);
                assert(t != seq![':']);
            } else {
                let k = side_text(b.l).len() as int;
                assert forall|j: int| 0 <= j < k implies t[j] != ':' by {
                    assert(t[j] == side_text(b.l)[j]);
                }
                assert(t[k] == ':');
                lemma_first_index_of_is(t, ':', k);
                assert(t.take(k) =~= side_text(b.l));
                assert(t.skip(k + 1) =~= side_text(b.r));
                assert(t != seq![':']);
            }
        },
        (Side::Index(a), Side::Continue) => {
            lemma_side_text(a);
            let k = side_text(b.l).len() as int;
            assert forall|j: int| 0 <= j < k implies t[j] != ':' by {
                assert(t[j] == side_text(b.l)[j]);
            }
            assert(t[k] == ':');
            lemma_first_index_of_is(t, ':', k);
            assert(t.take(k) =~= side_text(b.l));
            assert(t.skip(k + 1) =~= Seq::<char>::empty());
            assert(t != seq![':']);
        },
        (Side::Continue, Side::Index(c)) => {
            lemma_side_text(c);
            assert(t[0] == ':');
            lemma_first_index_of_is(t, ':', 0);
            assert(t.take(0) =~= Seq::<char>::empty());
            assert(t.skip(1) =~= side_text(b.r));
            assert(t.len() > 1);
        },
        (Side::Continue, Side::Continue) => {},
    }
}

/// A side whose index, if any, has the given sign.
pub open spec fn side_has_sign(s: Side, positive: bool) -> bool {
    match s {
        Side::Index(v) => if positive {
            v > 0
        } else {
            v < 0
        },
        Side::Continue => true,
    }
}

/// For a bound of positive indexes, the range that `bounds_to_std_range`
/// gives holds exactly the positions `p` (from 0) whose index `p + 1` the
/// bound matches.
pub proof fn lemma_range_matches_positive(len: usize, b: UserBounds, p: int)
    requires
        side_has_sign(b.l, true),
        side_has_sign(b.r, true),
        spec_range(len as int, b) is Ok,
        0 <= p < len,
        p < i32::MAX,
    ensures
        ({
            let (start, end) = spec_range(len as int, b)->Ok_0;
            (start <= p < end) == (spec_matches(b, (p + 1) as i32) == Ok::<bool, BoundsErrorView>(
                true,
            ))
        }),
{
}

/// For a bound of negative indexes, the range that `bounds_to_std_range`
/// gives holds exactly the positions `p` (from 0) whose index from the end,
/// `p - len`, the bound matches.
pub proof fn lemma_range_matches_negative(len: usize, b: UserBounds, p: int)
    requires
        side_has_sign(b.l, false),
        side_has_sign(b.r, false),
        spec_range(len as int, b) is Ok,
        0 <= p < len,
        len <= 0x8000_0000,
    ensures
        ({
            let (start, end) = spec_range(len as int, b)->Ok_0;
            (start <= p < end) == (spec_matches(b, (p - len) as i32) == Ok::<bool, BoundsErrorView>(
                true,
            ))
        }),
{
    let idx = (p - len) as i32;
    assert(idx == p - len);
}

/// A bound is `Equal` to itself.
pub proof fn lemma_order_reflexive(x: UserBounds)
    ensures
        bounds_order(x, x) == Ordering::Equal,
{
}

/// Between valid bounds, comparing the other way round gives the reverse
/// answer.
pub proof fn lemma_order_antisymmetric(x: UserBounds, y: UserBounds)
    requires
        is_valid_bound(x),
        is_valid_bound(y),
    ensures
        bounds_order(y, x) == reversed(bounds_order(x, y)),
{
}

/// A bound that ends where another starts or before selects no index after
/// any index that the other selects, and comes before it.
pub proof fn lemma_ends_before_selects_before(x: UserBounds, y: UserBounds, i: i32, j: i32)
    requires
        ends_before(x, y),
        spec_matches(x, i) == Ok::<bool, BoundsErrorView>(true),
        spec_matches(y, j) == Ok::<bool, BoundsErrorView>(true),
    ensures
        i <= j,
        x != y ==> bounds_order(x, y) == Ordering::Less,
{
}

/// `matches` refuses `idx` exactly where a side is an index of the other
/// sign than `idx` (one above 0, the other below), with the index and the
/// bound in the error; otherwise it answers whether `idx` is not below the
/// left index and not above the right index, a side left out being no limit.
pub proof fn lemma_matches_refuses_other_sign(b: UserBounds, idx: i32)
    ensures
        (spec_matches(b, idx) is Err) <==> ((b.l is Index && ((b.l->Index_0 < 0 && idx > 0) || (
        b.l->Index_0 > 0 && idx < 0))) || (b.r is Index && ((b.r->Index_0 < 0 && idx > 0) || (
        b.r->Index_0 > 0 && idx < 0)))),
        spec_matches(b, idx) is Err ==> spec_matches(b, idx) == Err::<bool, BoundsErrorView>(
            BoundsErrorView::SignMismatch { idx, bounds: b },
        ),
        spec_matches(b, idx) is Ok ==> (spec_matches(b, idx)->Ok_0 <==> ((b.l is Continue
            || b.l->Index_0 <= idx) && (b.r is Continue || idx <= b.r->Index_0))),
{
}

/// Where every index of the bound lies within the number of parts (counted
/// from either end), the range is given: it starts at the part that the
/// left side names (the first part where it is left out) and ends after the
/// part that the right side names (after the last part where it is left out).
pub proof fn lemma_range_within_parts(len: usize, b: UserBounds)
    requires
        b.l is Index ==> -(len as int) <= b.l->Index_0 <= len,
        b.r is Index ==> -(len as int) <= b.r->Index_0 <= len,
    ensures
        spec_range(len as int, b) is Ok,
        spec_range(len as int, b)->Ok_0.0 == (if b.l is Continue {
            0
        } else if b.l->Index_0 >= 0 {
            b.l->Index_0 - 1
        } else {
            len + b.l->Index_0
        }),
        spec_range(len as int, b)->Ok_0.1 == (if b.r is Continue {
            len as int
        } else if b.r->Index_0 >= 0 {
            b.r->Index_0 as int
        } else {
            len + b.r->Index_0 + 1
        }),
{
}

/// A side whose index lies beyond the number of parts is refused, the left
/// side first, with that index in the error.
pub proof fn lemma_range_refuses_outside_parts(len: usize, b: UserBounds)
    ensures
        b.l is Index && !(-(len as int) <= b.l->Index_0 <= len) ==> spec_range(len as int, b)
            == Err::<(int, int), BoundsErrorView>(BoundsErrorView::OutOfBounds(b.l->Index_0)),
        (b.l is Index ==> -(len as int) <= b.l->Index_0 <= len) && b.r is Index && !(-(
        len as int) <= b.r->Index_0 <= len) ==> spec_range(len as int, b) == Err::<
            (int, int),
            BoundsErrorView,
        >(BoundsErrorView::OutOfBounds(b.r->Index_0)),
{
}

} // verus!
