//! Wire codec for drawing events.
//!
//! A message is a tagged textual record in one of three exact shapes:
//!
//! ```text
//! {"type":"Draw","data":{"prev":[x,y],"cur":[x,y],"color":"c","brush_size":n}}
//! {"type":"Erase","data":{"prev":[x,y],"cur":[x,y],"brush_size":n}}
//! {"type":"Clear"}
//! ```
//!
//! Coordinates are numeric tokens (optional sign, integer part without a
//! leading zero, optional fraction, optional exponent); the relay never
//! interprets their value, so an event stores each coordinate as its exact
//! token and relaying is textually lossless. `color` is any run of
//! characters free of `"` and `\`; `brush_size` is a decimal integer that
//! fits the brush-size field. Anything else is rejected with `DecodeError`.

use vstd::prelude::*;
use vstd::string::StrSliceExecFns;

verus! {

/// One coordinate pair, each axis kept as its exact numeric token.
#[derive(Clone, Debug, PartialEq, Eq)]
pub struct Coord {
    pub x: Vec<char>,
    pub y: Vec<char>,
}

/// Mathematical value of a [`Coord`].
#[verifier::ext_equal]
pub struct CoordV {
    pub x: Seq<char>,
    pub y: Seq<char>,
}

impl View for Coord {
    type V = CoordV;

    open spec fn view(&self) -> CoordV {
        CoordV { x: self.x@, y: self.y@ }
    }
}

/// A drawing event: exactly one of the three wire variants.
#[derive(Clone, Debug, PartialEq, Eq)]
pub enum Event {
    Draw { prev: Coord, cur: Coord, color: Vec<char>, brush_size: u32 },
    Clear,
    Erase { prev: Coord, cur: Coord, brush_size: u32 },
}

/// Mathematical value of an [`Event`].
#[verifier::ext_equal]
pub enum EventV {
    Draw { prev: CoordV, cur: CoordV, color: Seq<char>, brush_size: u32 },
    Clear,
    Erase { prev: CoordV, cur: CoordV, brush_size: u32 },
}

impl View for Event {
    type V = EventV;

    open spec fn view(&self) -> EventV {
        match self {
            Event::Draw { prev, cur, color, brush_size } => EventV::Draw {
                prev: prev@,
                cur: cur@,
                color: color@,
                brush_size: *brush_size,
            },
            Event::Clear => EventV::Clear,
            Event::Erase { prev, cur, brush_size } => EventV::Erase {
                prev: prev@,
                cur: cur@,
                brush_size: *brush_size,
            },
        }
    }
}

/// A malformed inbound payload: it matches none of the three shapes.
#[derive(Clone, Copy, Debug, PartialEq, Eq)]
pub enum DecodeError {
    Malformed,
}

// ---------------------------------------------------------------------------
// Character classes and scanning
// ---------------------------------------------------------------------------

/// A decimal digit.
pub open spec fn is_digit(c: char) -> bool {
    c == '0' || c == '1' || c == '2' || c == '3' || c == '4'
    || c == '5' || c == '6' || c == '7' || c == '8' || c == '9'
}

/// The numeric value of a digit character.
pub open spec fn digit_val(c: char) -> int {
    if c == '0' { 0 }
    else if c == '1' { 1 }
    else if c == '2' { 2 }
    else if c == '3' { 3 }
    else if c == '4' { 4 }
    else if c == '5' { 5 }
    else if c == '6' { 6 }
    else if c == '7' { 7 }
    else if c == '8' { 8 }
    else if c == '9' { 9 }
    else { 0 }
}

/// A character allowed inside a color token: anything but `"` and `\`.
pub open spec fn is_color_char(c: char) -> bool {
    c != '"' && c != '\\'
}

/// First position at or after `i` whose character fails `p` (or the end).
pub open spec fn scan_while(s: Seq<char>, i: int, p: spec_fn(char) -> bool) -> int
    decreases s.len() - i,
{
    if 0 <= i < s.len() && p(s[i]) {
        scan_while(s, i + 1, p)
    } else {
        i
    }
}

/// The scan result is the unique boundary: everything before it satisfies
/// `p`, and it stands at the end or at a character failing `p`.
pub proof fn lemma_scan_while_char(s: Seq<char>, i: int, p: spec_fn(char) -> bool)
    requires
        0 <= i <= s.len(),
    ensures
        i <= scan_while(s, i, p) <= s.len(),
        forall|k: int| i <= k < scan_while(s, i, p) ==> p(#[trigger] s[k]),
        scan_while(s, i, p) == s.len() || !p(s[scan_while(s, i, p)]),
    decreases s.len() - i,
{
    if i < s.len() && p(s[i]) {
        lemma_scan_while_char(s, i + 1, p);
    }
}

/// Conversely, a position with those boundary properties is the scan result.
pub proof fn lemma_scan_while_exact(s: Seq<char>, i: int, j: int, p: spec_fn(char) -> bool)
    requires
        0 <= i <= j <= s.len(),
        forall|k: int| i <= k < j ==> p(#[trigger] s[k]),
        j == s.len() || !p(s[j]),
    ensures
        scan_while(s, i, p) == j,
    decreases j - i,
{
    if i < j {
        lemma_scan_while_exact(s, i + 1, j, p);
    }
}

// ---------------------------------------------------------------------------
// Decimal integers
// ---------------------------------------------------------------------------

/// Value of a digit string, most significant digit first.
pub open spec fn uint_value(t: Seq<char>) -> int
    decreases t.len(),
{
    if t.len() == 0 {
        0
    } else {
        uint_value(t.drop_last()) * 10 + digit_val(t.last())
    }
}

/// A well-formed unsigned decimal token: non-empty, all digits, and no
/// leading zero unless the token is exactly `0`.
pub open spec fn is_uint_token(t: Seq<char>) -> bool {
    &&& t.len() >= 1
    &&& forall|k: int| 0 <= k < t.len() ==> is_digit(#[trigger] t[k])
    &&& (t[0] == '0' ==> t.len() == 1)
}

/// The digit character for a value in `0 ..= 9`.
pub open spec fn digit_chr(d: int) -> char {
    if d == 0 { '0' }
    else if d == 1 { '1' }
    else if d == 2 { '2' }
    else if d == 3 { '3' }
    else if d == 4 { '4' }
    else if d == 5 { '5' }
    else if d == 6 { '6' }
    else if d == 7 { '7' }
    else if d == 8 { '8' }
    else { '9' }
}

/// Canonical decimal rendering of a non-negative integer.
pub open spec fn dec_spec(n: int) -> Seq<char>
    decreases n,
{
    if n < 10 {
        seq![digit_chr(n)]
    } else {
        dec_spec(n / 10).push(digit_chr(n % 10))
    }
}

pub proof fn lemma_digit_chr(d: int)
    requires
        0 <= d <= 9,
    ensures
        is_digit(digit_chr(d)),
        digit_val(digit_chr(d)) == d,
{
}

/// The canonical rendering is a well-formed token and evaluates back to `n`.
pub proof fn lemma_dec_spec(n: int)
    requires
        n >= 0,
    ensures
        is_uint_token(dec_spec(n)),
        uint_value(dec_spec(n)) == n,
        n > 0 ==> dec_spec(n)[0] != '0',
    decreases n,
{
    if n < 10 {
        lemma_digit_chr(n);
        let t = dec_spec(n);
        assert(t.drop_last() =~= Seq::<char>::empty());
        assert(t.last() == digit_chr(n));
        assert(uint_value(t) == uint_value(Seq::<char>::empty()) * 10 + digit_val(digit_chr(n)));
        assert(uint_value(Seq::<char>::empty()) == 0);
    } else {
        lemma_dec_spec(n / 10);
        lemma_digit_chr(n % 10);
        let t = dec_spec(n);
        assert(t.drop_last() =~= dec_spec(n / 10));
        assert(t.last() == digit_chr(n % 10));
        assert(uint_value(t) == uint_value(dec_spec(n / 10)) * 10 + digit_val(digit_chr(n % 10)));
        assert(n / 10 * 10 + n % 10 == n);
        assert(t[0] == dec_spec(n / 10)[0]);
        assert(forall|k: int| 0 <= k < t.len() - 1 ==> t[k] == dec_spec(n / 10)[k]);
    }
}

// ---------------------------------------------------------------------------
// Numeric coordinate tokens
// ---------------------------------------------------------------------------

/// The digit class as a first-class predicate, so that every scan over
/// digits speaks of one and the same function.
pub open spec fn digit_pred() -> spec_fn(char) -> bool {
    |c: char| is_digit(c)
}

/// The color class as a first-class predicate.
pub open spec fn color_pred() -> spec_fn(char) -> bool {
    |c: char| is_color_char(c)
}

pub open spec fn scan_digits(s: Seq<char>, i: int) -> int {
    scan_while(s, i, digit_pred())
}

pub open spec fn scan_color(s: Seq<char>, i: int) -> int {
    scan_while(s, i, color_pred())
}

/// End of the fraction part begun at `b`: either no `.` stands there, or a
/// `.` followed by at least one digit.
pub open spec fn frac_end(s: Seq<char>, b: int) -> Option<int> {
    if b < s.len() && s[b] == '.' {
        if b + 1 < s.len() && is_digit(s[b + 1]) {
            Some(scan_digits(s, b + 1))
        } else {
            None
        }
    } else {
        Some(b)
    }
}

/// End of the exponent part begun at `c`: either no `e`/`E` stands there,
/// or `e`/`E`, an optional sign, and at least one digit.
pub open spec fn exp_end(s: Seq<char>, c: int) -> Option<int> {
    if c < s.len() && (s[c] == 'e' || s[c] == 'E') {
        let d = if c + 1 < s.len() && (s[c + 1] == '+' || s[c + 1] == '-') {
            c + 2
        } else {
            c + 1
        };
        if d < s.len() && is_digit(s[d]) {
            Some(scan_digits(s, d))
        } else {
            None
        }
    } else {
        Some(c)
    }
}

/// Greedy scan of one numeric token starting at `i`: optional minus, an
/// integer part with no leading zero, then optional fraction and exponent.
/// Yields the position just past the token, or `None` if no token starts
/// at `i`.
pub open spec fn num_end(s: Seq<char>, i: int) -> Option<int> {
    let a = if i < s.len() && s[i] == '-' { i + 1 } else { i };
    if a < s.len() && is_digit(s[a]) {
        let b = if s[a] == '0' { a + 1 } else { scan_digits(s, a) };
        match frac_end(s, b) {
            None => None,
            Some(c) => exp_end(s, c),
        }
    } else {
        None
    }
}

/// A well-formed numeric token: the scan consumes it exactly.
pub open spec fn is_number_token(t: Seq<char>) -> bool {
    num_end(t, 0) == Some(t.len() as int)
}

/// A character that cannot extend a numeric token whose scan has ended.
pub open spec fn num_stopper(c: char) -> bool {
    !is_digit(c) && c != '.' && c != 'e' && c != 'E'
}

/// A prefix of a digit string never exceeds the whole string's value.
pub proof fn lemma_uint_prefix(t: Seq<char>, m: int)
    requires
        0 <= m <= t.len(),
        forall|k: int| 0 <= k < t.len() ==> is_digit(#[trigger] t[k]),
    ensures
        0 <= uint_value(t.subrange(0, m)) <= uint_value(t),
    decreases t.len(),
{
    if t.len() == 0 {
        assert(t.subrange(0, m) =~= t);
    } else {
        assert(forall|k: int| 0 <= k < t.len() - 1 ==> is_digit(#[trigger] t.drop_last()[k]));
        lemma_uint_prefix(t.drop_last(), if m <= t.len() - 1 { m } else { t.len() - 1 });
        if m <= t.len() - 1 {
            assert(t.subrange(0, m) =~= t.drop_last().subrange(0, m));
        } else {
            assert(t.subrange(0, m) =~= t);
            assert(t.drop_last().subrange(0, t.len() - 1) =~= t.drop_last());
        }
    }
}

/// A well-formed numeric token embedded in a larger string, with a
/// non-continuing character right after it, scans to exactly its own end.
pub proof fn lemma_num_end_extend(pre: Seq<char>, t: Seq<char>, rest: Seq<char>)
    requires
        is_number_token(t),
        rest.len() >= 1,
        num_stopper(rest[0]),
    ensures
        num_end(pre + t + rest, pre.len() as int) == Some((pre.len() + t.len()) as int),
{
    let s = pre + t + rest;
    let n = pre.len() as int;
    let ll = t.len() as int;
    assert(forall|k: int| 0 <= k < ll ==> s[n + k] == #[trigger] t[k]);
    assert(s[n + ll] == rest[0]);
    assert(s.len() == n + ll + rest.len());

    // Mirror the token-side evaluation of `num_end(t, 0)`.
    assert(ll >= 1) by {
        if ll == 0 {
            assert(num_end(t, 0) == None::<int>);
        }
    }
    let at = if t[0] == '-' { 1int } else { 0int };
    let asx = n + at;
    assert(at < ll && is_digit(t[at])) by {
        if !(at < ll && is_digit(t[at])) {
            assert(num_end(t, 0) == None::<int>);
        }
    }
    assert(s[n] == t[0]);
    // Integer part.
    let bt = if t[at] == '0' { at + 1 } else { scan_digits(t, at) };
    lemma_scan_while_char(t, at, digit_pred());
    if t[at] != '0' {
        assert(bt > at) by {
            assert(digit_pred()(t[at]));
        }
    }
    assert(at < bt <= ll) by {
        if t[at] != '0' {
            lemma_scan_while_char(t, at, digit_pred());
        }
    }
    let bs = n + bt;
    assert(bs == if s[asx] == '0' { asx + 1 } else { scan_digits(s, asx) }) by {
        if t[at] != '0' {
            lemma_scan_while_exact(s, asx, bs, digit_pred());
        }
    }
    // Fraction part.
    let ct = match frac_end(t, bt) {
        Some(c) => c,
        None => 0int,
    };
    assert(frac_end(t, bt) == Some(ct)) by {
        if frac_end(t, bt) is None {
            assert(num_end(t, 0) == None::<int>);
        }
    }
    assert(bt <= ct <= ll) by {
        if bt < ll && t[bt] == '.' {
            lemma_scan_while_char(t, bt + 1, digit_pred());
        }
    }
    let cs = n + ct;
    assert(frac_end(s, bs) == Some(cs)) by {
        if bt < ll && t[bt] == '.' {
            assert(s[bs] == '.');
            assert(bt + 1 < ll && is_digit(t[bt + 1])) by {
                if !(bt + 1 < ll && is_digit(t[bt + 1])) {
                    assert(frac_end(t, bt) == None::<int>);
                }
            }
            lemma_scan_while_char(t, bt + 1, digit_pred());
            lemma_scan_while_exact(s, bs + 1, cs, digit_pred());
        } else {
            // No fraction: the character after `bs` (inside the token or the
            // stopper) is not a dot.
            assert(ct == bt);
            if bs < s.len() {
                if bt < ll {
                    assert(s[bs] == t[bt]);
                } else if bt == ll {
                    assert(s[bs] == rest[0]);
                }
            }
        }
    }
    // Exponent part.
    assert(exp_end(t, ct) == Some(ll));
    if ct < ll && (t[ct] == 'e' || t[ct] == 'E') {
        let dt = if ct + 1 < ll && (t[ct + 1] == '+' || t[ct + 1] == '-') {
            ct + 2
        } else {
            ct + 1
        };
        assert(dt < ll && is_digit(t[dt])) by {
            if !(dt < ll && is_digit(t[dt])) {
                assert(exp_end(t, ct) == None::<int>);
            }
        }
        assert(scan_digits(t, dt) == ll);
        lemma_scan_while_char(t, dt, digit_pred());
        assert(ct + 1 < ll) by {
            if ct + 1 == ll {
                assert(dt == ll);
            }
        }
        let ds = n + dt;
        assert(s[cs] == t[ct]);
        assert(s[cs + 1] == t[ct + 1]);
        assert(ds == if cs + 1 < s.len() && (s[cs + 1] == '+' || s[cs + 1] == '-') {
            cs + 2
        } else {
            cs + 1
        });
        assert(is_digit(s[ds]));
        lemma_scan_while_exact(s, ds, n + ll, digit_pred());
        assert(exp_end(s, cs) == Some(n + ll));
    } else {
        assert(ct == ll);
        assert(s[cs] == rest[0]);
        assert(exp_end(s, cs) == Some(n + ll));
    }
    assert(num_end(s, n) == Some(n + ll));
}

/// The span a successful number scan covers is itself a well-formed
/// numeric token.
pub proof fn lemma_num_end_restrict(s: Seq<char>, i: int, j: int)
    requires
        0 <= i <= s.len(),
        num_end(s, i) == Some(j),
    ensures
        i < j <= s.len(),
        is_number_token(s.subrange(i, j)),
{
    let a = if i < s.len() && s[i] == '-' { i + 1 } else { i };
    assert(a < s.len() && is_digit(s[a])) by {
        if !(a < s.len() && is_digit(s[a])) {
            assert(num_end(s, i) == None::<int>);
        }
    }
    let b = if s[a] == '0' { a + 1 } else { scan_digits(s, a) };
    lemma_scan_while_char(s, a, digit_pred());
    assert(a < b <= s.len()) by {
        if s[a] != '0' {
            assert(digit_pred()(s[a]));
        }
    }
    let c = match frac_end(s, b) {
        Some(c) => c,
        None => 0int,
    };
    assert(frac_end(s, b) == Some(c)) by {
        if frac_end(s, b) is None {
            assert(num_end(s, i) == None::<int>);
        }
    }
    assert(b <= c <= s.len()) by {
        if b < s.len() && s[b] == '.' {
            lemma_scan_while_char(s, b + 1, digit_pred());
        }
    }
    assert(exp_end(s, c) == Some(j));
    assert(c <= j <= s.len()) by {
        if c < s.len() && (s[c] == 'e' || s[c] == 'E') {
            let d = if c + 1 < s.len() && (s[c + 1] == '+' || s[c + 1] == '-') {
                c + 2
            } else {
                c + 1
            };
            assert(d < s.len() && is_digit(s[d])) by {
                if !(d < s.len() && is_digit(s[d])) {
                    assert(exp_end(s, c) == None::<int>);
                }
            }
            lemma_scan_while_char(s, d, digit_pred());
            assert(digit_pred()(s[d]));
        }
    }

    let t = s.subrange(i, j);
    let ll = j - i;
    assert(forall|k: int| 0 <= k < ll ==> #[trigger] t[k] == s[i + k]);

    // Token-side evaluation mirrors the source-side indices shifted by `i`.
    let at = a - i;
    assert(t[0] == s[i]);
    assert(at == if t[0] == '-' { 1int } else { 0int });
    assert(a < j);
    assert(at < ll && is_digit(t[at]));
    let bt = b - i;
    assert(bt == if t[at] == '0' { at + 1 } else { scan_digits(t, at) }) by {
        if s[a] != '0' {
            // b is bounded by j: every later stage only moves right.
            assert(b <= c <= j);
            lemma_scan_while_exact(t, at, bt, digit_pred());
        }
    }
    let ct = c - i;
    assert(frac_end(t, bt) == Some(ct)) by {
        if b < s.len() && s[b] == '.' {
            assert(b + 1 < s.len() && is_digit(s[b + 1])) by {
                if !(b + 1 < s.len() && is_digit(s[b + 1])) {
                    assert(frac_end(s, b) == None::<int>);
                }
            }
            lemma_scan_while_char(s, b + 1, digit_pred());
            assert(digit_pred()(s[b + 1]));
            assert(c >= b + 2);
            assert(bt < ll && t[bt] == '.');
            assert(is_digit(t[bt + 1]));
            lemma_scan_while_exact(t, bt + 1, ct, digit_pred());
        } else {
            assert(c == b);
            if bt < ll {
                assert(t[bt] == s[b]);
                assert(t[bt] != '.');
            }
        }
    }
    assert(exp_end(t, ct) == Some(ll)) by {
        if c < s.len() && (s[c] == 'e' || s[c] == 'E') {
            let d = if c + 1 < s.len() && (s[c + 1] == '+' || s[c + 1] == '-') {
                c + 2
            } else {
                c + 1
            };
            assert(d < s.len() && is_digit(s[d])) by {
                if !(d < s.len() && is_digit(s[d])) {
                    assert(exp_end(s, c) == None::<int>);
                }
            }
            assert(scan_digits(s, d) == j);
            lemma_scan_while_char(s, d, digit_pred());
            assert(digit_pred()(s[d]));
            assert(d < j);
            assert(ct < ll && (t[ct] == 'e' || t[ct] == 'E'));
            assert(c + 1 < j);
            assert(t[ct + 1] == s[c + 1]);
            let dt = d - i;
            assert(dt == if ct + 1 < ll && (t[ct + 1] == '+' || t[ct + 1] == '-') {
                ct + 2
            } else {
                ct + 1
            });
            assert(is_digit(t[dt]));
            lemma_scan_while_exact(t, dt, ll, digit_pred());
        } else {
            assert(j == c);
            if ct < ll {
                assert(t[ct] == s[c]);
            }
            assert(ct == ll);
        }
    }
    assert(num_end(t, 0) == Some(ll));
}

// ---------------------------------------------------------------------------
// The three message shapes
// ---------------------------------------------------------------------------

pub open spec fn lit_clear() -> Seq<char> {
    "{\"type\":\"Clear\"}"@
}

pub open spec fn lit_draw_head() -> Seq<char> {
    "{\"type\":\"Draw\",\"data\":{\"prev\":["@
}

pub open spec fn lit_erase_head() -> Seq<char> {
    "{\"type\":\"Erase\",\"data\":{\"prev\":["@
}

pub open spec fn lit_cur() -> Seq<char> {
    "],\"cur\":["@
}

pub open spec fn lit_color() -> Seq<char> {
    "],\"color\":\""@
}

pub open spec fn lit_brush_draw() -> Seq<char> {
    "\",\"brush_size\":"@
}

pub open spec fn lit_brush_erase() -> Seq<char> {
    "],\"brush_size\":"@
}

pub open spec fn lit_end() -> Seq<char> {
    "}}"@
}

/// `lit` stands verbatim in `s` at position `i`.
pub open spec fn tag_at(s: Seq<char>, i: int, lit: Seq<char>) -> bool {
    &&& 0 <= i
    &&& i + lit.len() <= s.len()
    &&& s.subrange(i, i + lit.len()) == lit
}

/// A color token: any run of characters free of `"` and `\`.
pub open spec fn is_color_token(t: Seq<char>) -> bool {
    forall|k: int| 0 <= k < t.len() ==> is_color_char(#[trigger] t[k])
}

pub open spec fn valid_coord(c: CoordV) -> bool {
    is_number_token(c.x) && is_number_token(c.y)
}

/// An event whose tokens are well formed, i.e. one that has a wire form.
pub open spec fn valid_event(e: EventV) -> bool {
    match e {
        EventV::Draw { prev, cur, color, brush_size } => valid_coord(prev) && valid_coord(cur)
            && is_color_token(color),
        EventV::Clear => true,
        EventV::Erase { prev, cur, brush_size } => valid_coord(prev) && valid_coord(cur),
    }
}

pub open spec fn encode_pair(p: CoordV) -> Seq<char> {
    p.x + seq![','] + p.y
}

/// The canonical wire form of an event.
pub open spec fn encode_spec(e: EventV) -> Seq<char> {
    match e {
        EventV::Clear => lit_clear(),
        EventV::Draw { prev, cur, color, brush_size } => lit_draw_head() + encode_pair(prev)
            + lit_cur() + encode_pair(cur) + lit_color() + color + lit_brush_draw()
            + dec_spec(brush_size as int) + lit_end(),
        EventV::Erase { prev, cur, brush_size } => lit_erase_head() + encode_pair(prev) + lit_cur()
            + encode_pair(cur) + lit_brush_erase() + dec_spec(brush_size as int) + lit_end(),
    }
}

/// Two numeric tokens separated by a comma, starting at `i`; yields the
/// tokens and the position just past the second.
pub open spec fn parse_pair(s: Seq<char>, i: int) -> Option<(Seq<char>, Seq<char>, int)> {
    match num_end(s, i) {
        None => None,
        Some(a) => if a < s.len() && s[a] == ',' {
            match num_end(s, a + 1) {
                None => None,
                Some(b) => Some((s.subrange(i, a), s.subrange(a + 1, b), b)),
            }
        } else {
            None
        },
    }
}

/// An unsigned decimal starting at `i` that fits the brush-size field.
pub open spec fn parse_uint(s: Seq<char>, i: int) -> Option<(u32, int)> {
    let j = scan_digits(s, i);
    if i < j && (s[i] == '0' ==> j == i + 1) && uint_value(s.subrange(i, j)) <= u32::MAX {
        Some((uint_value(s.subrange(i, j)) as u32, j))
    } else {
        None
    }
}

/// The closing braces, and nothing after them.
pub open spec fn parse_tail(s: Seq<char>, i: int) -> bool {
    tag_at(s, i, lit_end()) && i + lit_end().len() == s.len()
}

pub open spec fn parse_draw(s: Seq<char>) -> Option<EventV> {
    match parse_pair(s, lit_draw_head().len() as int) {
        None => None,
        Some((px, py, b)) => if tag_at(s, b, lit_cur()) {
            match parse_pair(s, b + lit_cur().len()) {
                None => None,
                Some((cx, cy, d)) => if tag_at(s, d, lit_color()) {
                    let c0 = d + lit_color().len();
                    let c1 = scan_color(s, c0);
                    if tag_at(s, c1, lit_brush_draw()) {
                        match parse_uint(s, c1 + lit_brush_draw().len()) {
                            None => None,
                            Some((bs, u1)) => if parse_tail(s, u1) {
                                Some(EventV::Draw {
                                    prev: CoordV { x: px, y: py },
                                    cur: CoordV { x: cx, y: cy },
                                    color: s.subrange(c0, c1),
                                    brush_size: bs,
                                })
                            } else {
                                None
                            },
                        }
                    } else {
                        None
                    }
                } else {
                    None
                },
            }
        } else {
            None
        },
    }
}

pub open spec fn parse_erase(s: Seq<char>) -> Option<EventV> {
    match parse_pair(s, lit_erase_head().len() as int) {
        None => None,
        Some((px, py, b)) => if tag_at(s, b, lit_cur()) {
            match parse_pair(s, b + lit_cur().len()) {
                None => None,
                Some((cx, cy, d)) => if tag_at(s, d, lit_brush_erase()) {
                    match parse_uint(s, d + lit_brush_erase().len()) {
                        None => None,
                        Some((bs, u1)) => if parse_tail(s, u1) {
                            Some(EventV::Erase {
                                prev: CoordV { x: px, y: py },
                                cur: CoordV { x: cx, y: cy },
                                brush_size: bs,
                            })
                        } else {
                            None
                        },
                    }
                } else {
                    None
                },
            }
        } else {
            None
        },
    }
}

/// A segment of a concatenation is recovered by `subrange`, and a literal
/// segment stands at its position in the `tag_at` sense.
proof fn lemma_embed(pre: Seq<char>, mid: Seq<char>, rest: Seq<char>)
    ensures
        (pre + mid + rest).subrange(pre.len() as int, (pre.len() + mid.len()) as int) == mid,
        tag_at(pre + mid + rest, pre.len() as int, mid),
{
    let s = pre + mid + rest;
    assert(s.subrange(pre.len() as int, (pre.len() + mid.len()) as int) =~= mid);
}

/// Splitting a subrange at an interior point splits the characters.
proof fn lemma_subrange_split(s: Seq<char>, x: int, y: int, z: int)
    requires
        0 <= x <= y <= z <= s.len(),
    ensures
        s.subrange(x, z) == s.subrange(x, y) + s.subrange(y, z),
{
    assert(s.subrange(x, z) =~= s.subrange(x, y) + s.subrange(y, z));
}

proof fn lemma_digit_chr_inv(c: char)
    requires
        is_digit(c),
    ensures
        0 <= digit_val(c) <= 9,
        digit_chr(digit_val(c)) == c,
{
}

/// A digit token without a leading zero has a positive value.
proof fn lemma_uint_value_pos(t: Seq<char>)
    requires
        t.len() >= 1,
        forall|k: int| 0 <= k < t.len() ==> is_digit(#[trigger] t[k]),
        t[0] != '0',
    ensures
        uint_value(t) >= 1,
    decreases t.len(),
{
    assert(t.last() == t[t.len() - 1]);
    assert(is_digit(t[t.len() - 1]));
    assert(digit_val(t.last()) >= 0);
    if t.len() == 1 {
        assert(t.drop_last() =~= Seq::<char>::empty());
        assert(t.last() == t[0]);
        assert(digit_val(t.last()) >= 1);
        assert(uint_value(t) == uint_value(Seq::<char>::empty()) * 10 + digit_val(t.last()));
    } else {
        assert(forall|k: int| 0 <= k < t.len() - 1 ==> is_digit(#[trigger] t.drop_last()[k]));
        assert(t.drop_last()[0] == t[0]);
        lemma_uint_value_pos(t.drop_last());
        assert(uint_value(t) == uint_value(t.drop_last()) * 10 + digit_val(t.last()));
    }
}

/// A well-formed decimal token is the canonical rendering of its value.
proof fn lemma_uint_token_canon(t: Seq<char>)
    requires
        is_uint_token(t),
    ensures
        uint_value(t) >= 0,
        dec_spec(uint_value(t)) == t,
    decreases t.len(),
{
    lemma_uint_prefix(t, t.len() as int);
    assert(t.subrange(0, t.len() as int) =~= t);
    let v = uint_value(t);
    if t.len() == 1 {
        assert(t.drop_last() =~= Seq::<char>::empty());
        assert(t.last() == t[0]);
        assert(v == uint_value(Seq::<char>::empty()) * 10 + digit_val(t[0]));
        assert(v == digit_val(t[0]));
        lemma_digit_chr_inv(t[0]);
        assert(dec_spec(v) =~= t);
    } else {
        let d = t.drop_last();
        assert(forall|k: int| 0 <= k < d.len() ==> is_digit(#[trigger] d[k]));
        assert(d[0] == t[0]);
        assert(t[0] != '0');
        lemma_uint_value_pos(d);
        lemma_uint_token_canon(d);
        let dv = uint_value(d);
        let last = digit_val(t.last());
        lemma_digit_chr_inv(t.last());
        assert(v == dv * 10 + last);
        assert(v / 10 == dv && v % 10 == last) by (nonlinear_arith)
            requires
                v == dv * 10 + last,
                dv >= 0,
                0 <= last <= 9,
        ;
        assert(v >= 10);
        assert(dec_spec(v) == dec_spec(dv).push(digit_chr(last)));
        assert(dec_spec(v) =~= t);
    }
}

/// What a payload decodes to, if it matches one of the three shapes.
pub open spec fn decode_spec(s: Seq<char>) -> Option<EventV> {
    if s == lit_clear() {
        Some(EventV::Clear)
    } else if tag_at(s, 0, lit_draw_head()) {
        parse_draw(s)
    } else if tag_at(s, 0, lit_erase_head()) {
        parse_erase(s)
    } else {
        None
    }
}

proof fn lemma_number_token_nonempty(t: Seq<char>)
    requires
        is_number_token(t),
    ensures
        t.len() >= 1,
{
    if t.len() == 0 {
        assert(num_end(t, 0) == None::<int>);
    }
}

proof fn reveal_lits()
    ensures
        lit_clear().len() == 16,
        lit_draw_head().len() == 31,
        lit_erase_head().len() == 32,
        lit_cur().len() == 9,
        lit_cur()[0] == ']',
        lit_color().len() == 11,
        lit_color()[0] == ']',
        lit_brush_draw().len() == 15,
        lit_brush_draw()[0] == '"',
        lit_brush_erase().len() == 15,
        lit_brush_erase()[0] == ']',
        lit_end().len() == 2,
        lit_end()[0] == '}',
{
    reveal_strlit("{\"type\":\"Clear\"}");
    reveal_strlit("{\"type\":\"Draw\",\"data\":{\"prev\":[");
    reveal_strlit("{\"type\":\"Erase\",\"data\":{\"prev\":[");
    reveal_strlit("],\"cur\":[");
    reveal_strlit("],\"color\":\"");
    reveal_strlit("\",\"brush_size\":");
    reveal_strlit("],\"brush_size\":");
    reveal_strlit("}}");
}

#[verifier::rlimit(80)]
proof fn lemma_round_trip_draw(prev: CoordV, cur: CoordV, color: Seq<char>, brush_size: u32)
    requires
        valid_coord(prev),
        valid_coord(cur),
        is_color_token(color),
    ensures
        decode_spec(encode_spec(EventV::Draw { prev, cur, color, brush_size })) == Some(
            EventV::Draw { prev, cur, color, brush_size },
        ),
{
    reveal_lits();
    let e = EventV::Draw { prev, cur, color, brush_size };
    let l1 = lit_draw_head();
    let l2 = lit_cur();
    let l3 = lit_color();
    let l4 = lit_brush_draw();
    let l5 = lit_end();
    let cm = seq![','];
    let px = prev.x;
    let py = prev.y;
    let cx = cur.x;
    let cy = cur.y;
    let u = dec_spec(brush_size as int);
    lemma_dec_spec(brush_size as int);
    lemma_number_token_nonempty(px);
    lemma_number_token_nonempty(py);
    lemma_number_token_nonempty(cx);
    lemma_number_token_nonempty(cy);
    let s = encode_spec(e);

    // Right-nested tails of the wire form, innermost first.
    let r11 = u + l5;
    let r10 = l4 + r11;
    let r9 = color + r10;
    let r8 = l3 + r9;
    let r7 = cy + r8;
    let r6 = cm + r7;
    let r5 = cx + r6;
    let r4 = l2 + r5;
    let r3 = py + r4;
    let r2 = cm + r3;
    let r1 = px + r2;

    // Rotate the encoder's left-nested concatenation into those tails.
    let c3 = l1 + encode_pair(prev);
    let c4 = c3 + l2;
    let c5 = c4 + encode_pair(cur);
    let c6 = c5 + l3;
    let c7 = c6 + color;
    let c8 = c7 + l4;
    assert(s == c8 + u + l5);
    vstd::seq_lib::lemma_concat_associative(c8, u, l5);
    assert(s == c8 + r11);
    vstd::seq_lib::lemma_concat_associative(c7, l4, r11);
    assert(s == c7 + r10);
    vstd::seq_lib::lemma_concat_associative(c6, color, r10);
    assert(s == c6 + r9);
    vstd::seq_lib::lemma_concat_associative(c5, l3, r9);
    assert(s == c5 + r8);
    vstd::seq_lib::lemma_concat_associative(c4, encode_pair(cur), r8);
    assert(encode_pair(cur) + r8 == (cx + cm) + cy + r8);
    vstd::seq_lib::lemma_concat_associative(cx + cm, cy, r8);
    vstd::seq_lib::lemma_concat_associative(cx, cm, r7);
    assert(encode_pair(cur) + r8 == r5);
    assert(s == c4 + r5);
    vstd::seq_lib::lemma_concat_associative(c3, l2, r5);
    assert(s == c3 + r4);
    vstd::seq_lib::lemma_concat_associative(l1, encode_pair(prev), r4);
    vstd::seq_lib::lemma_concat_associative(px + cm, py, r4);
    vstd::seq_lib::lemma_concat_associative(px, cm, r3);
    assert(encode_pair(prev) + r4 == r1);
    assert(s == l1 + r1);

    // The head literal stands at the front, so the draw branch is taken.
    assert(s =~= Seq::<char>::empty() + l1 + r1);
    lemma_embed(Seq::<char>::empty(), l1, r1);
    assert(tag_at(s, 0, l1));
    assert(s.len() > lit_clear().len());
    assert(s != lit_clear());

    // Walk the tails left to right, pinning every token and literal.
    let i0 = l1.len() as int;
    let a = i0 + px.len();
    let b = a + 1 + py.len();
    let i2 = b + l2.len();
    let c = i2 + cx.len();
    let d = c + 1 + cy.len();
    let c0 = d + l3.len();
    let c1 = c0 + color.len();
    let u0 = c1 + l4.len();
    let u1 = u0 + u.len();

    // px
    vstd::seq_lib::lemma_concat_associative(l1, px, r2);
    assert(s == (l1 + px) + r2);
    assert(r2[0] == ',');
    lemma_num_end_extend(l1, px, r2);
    lemma_embed(l1, px, r2);
    assert(num_end(s, i0) == Some(a));
    assert(s.subrange(i0, a) == px);
    let p1 = l1 + px;
    // comma
    vstd::seq_lib::lemma_concat_associative(p1, cm, r3);
    assert(s == (p1 + cm) + r3);
    lemma_embed(p1, cm, r3);
    assert(s[a] == ',') by {
        assert(s.subrange(a, a + 1) == cm);
        assert(s.subrange(a, a + 1)[0] == s[a]);
    }
    let p2 = p1 + cm;
    // py
    vstd::seq_lib::lemma_concat_associative(p2, py, r4);
    assert(s == (p2 + py) + r4);
    assert(r4[0] == ']');
    lemma_num_end_extend(p2, py, r4);
    lemma_embed(p2, py, r4);
    assert(num_end(s, a + 1) == Some(b));
    assert(s.subrange(a + 1, b) == py);
    assert(parse_pair(s, i0) == Some((px, py, b)));
    let p3 = p2 + py;
    // l2
    vstd::seq_lib::lemma_concat_associative(p3, l2, r5);
    assert(s == (p3 + l2) + r5);
    lemma_embed(p3, l2, r5);
    assert(tag_at(s, b, l2));
    let p4 = p3 + l2;
    // cx
    vstd::seq_lib::lemma_concat_associative(p4, cx, r6);
    assert(s == (p4 + cx) + r6);
    assert(r6[0] == ',');
    lemma_num_end_extend(p4, cx, r6);
    lemma_embed(p4, cx, r6);
    assert(num_end(s, i2) == Some(c));
    assert(s.subrange(i2, c) == cx);
    let p5 = p4 + cx;
    // comma
    vstd::seq_lib::lemma_concat_associative(p5, cm, r7);
    assert(s == (p5 + cm) + r7);
    lemma_embed(p5, cm, r7);
    assert(s[c] == ',') by {
        assert(s.subrange(c, c + 1) == cm);
        assert(s.subrange(c, c + 1)[0] == s[c]);
    }
    let p6 = p5 + cm;
    // cy
    vstd::seq_lib::lemma_concat_associative(p6, cy, r8);
    assert(s == (p6 + cy) + r8);
    assert(r8[0] == ']');
    lemma_num_end_extend(p6, cy, r8);
    lemma_embed(p6, cy, r8);
    assert(num_end(s, c + 1) == Some(d));
    assert(s.subrange(c + 1, d) == cy);
    assert(parse_pair(s, b + l2.len()) == Some((cx, cy, d)));
    let p7 = p6 + cy;
    // l3
    vstd::seq_lib::lemma_concat_associative(p7, l3, r9);
    assert(s == (p7 + l3) + r9);
    lemma_embed(p7, l3, r9);
    assert(tag_at(s, d, l3));
    let p8 = p7 + l3;
    // color
    vstd::seq_lib::lemma_concat_associative(p8, color, r10);
    assert(s == (p8 + color) + r10);
    lemma_embed(p8, color, r10);
    assert(s.subrange(c0, c1) == color);
    assert(forall|k: int| c0 <= k < c1 ==> color_pred()(#[trigger] s[k])) by {
        assert(forall|k: int| c0 <= k < c1 ==> s[k] == s.subrange(c0, c1)[k - c0]);
    }
    let p9 = p8 + color;
    vstd::seq_lib::lemma_concat_associative(p9, l4, r11);
    assert(s == (p9 + l4) + r11);
    lemma_embed(p9, l4, r11);
    assert(s[c1] == '"') by {
        assert(s.subrange(c1, c1 + l4.len()) == l4);
        assert(s.subrange(c1, c1 + l4.len())[0] == s[c1]);
    }
    assert(!color_pred()(s[c1]));
    lemma_scan_while_exact(s, c0, c1, color_pred());
    assert(scan_color(s, c0) == c1);
    assert(tag_at(s, c1, l4));
    let p10 = p9 + l4;
    // brush size
    vstd::seq_lib::lemma_concat_associative(p10, u, l5);
    assert(s == (p10 + u) + l5);
    lemma_embed(p10, u, l5);
    assert(s.subrange(u0, u1) == u);
    assert(forall|k: int| u0 <= k < u1 ==> digit_pred()(#[trigger] s[k])) by {
        assert(forall|k: int| u0 <= k < u1 ==> s[k] == s.subrange(u0, u1)[k - u0]);
    }
    let p11 = p10 + u;
    assert(s =~= p11 + l5 + Seq::<char>::empty());
    lemma_embed(p11, l5, Seq::<char>::empty());
    assert(tag_at(s, u1, l5));
    assert(s[u1] == '}') by {
        assert(s.subrange(u1, u1 + 2) == l5);
        assert(s.subrange(u1, u1 + 2)[0] == s[u1]);
    }
    assert(!digit_pred()(s[u1]));
    lemma_scan_while_exact(s, u0, u1, digit_pred());
    assert(scan_digits(s, u0) == u1);
    assert(s[u0] == u[0]) by {
        assert(s.subrange(u0, u1)[0] == s[u0]);
    }
    assert(s[u0] == '0' ==> u1 == u0 + 1);
    assert(uint_value(s.subrange(u0, u1)) == brush_size as int);
    assert(parse_uint(s, u0) == Some((brush_size, u1)));
    assert(s.len() == u1 + 2);
    assert(parse_tail(s, u1));

    let got = EventV::Draw {
        prev: CoordV { x: s.subrange(i0, a), y: s.subrange(a + 1, b) },
        cur: CoordV { x: s.subrange(i2, c), y: s.subrange(c + 1, d) },
        color: s.subrange(c0, c1),
        brush_size,
    };
    assert(parse_draw(s) == Some(got));
    assert(got =~= e);
    assert(decode_spec(s) == Some(e));
}

/// A payload carrying the erase head is neither the clear literal nor one
/// carrying the draw head.
proof fn lemma_erase_head_selects(s: Seq<char>)
    requires
        tag_at(s, 0, lit_erase_head()),
    ensures
        s != lit_clear(),
        !tag_at(s, 0, lit_draw_head()),
{
    reveal_strlit("{\"type\":\"Clear\"}");
    reveal_strlit("{\"type\":\"Draw\",\"data\":{\"prev\":[");
    reveal_strlit("{\"type\":\"Erase\",\"data\":{\"prev\":[");
    assert(s.subrange(0, 32)[9] == s[9]);
    assert(s[9] == 'E');
    if tag_at(s, 0, lit_draw_head()) {
        assert(s.subrange(0, 31)[9] == s[9]);
        assert(s[9] == 'D');
    }
}

#[verifier::rlimit(100)]
proof fn lemma_round_trip_erase(prev: CoordV, cur: CoordV, brush_size: u32)
    requires
        valid_coord(prev),
        valid_coord(cur),
    ensures
        decode_spec(encode_spec(EventV::Erase { prev, cur, brush_size })) == Some(
            EventV::Erase { prev, cur, brush_size },
        ),
{
    reveal_strlit("{\"type\":\"Erase\",\"data\":{\"prev\":[");
    reveal_strlit("],\"cur\":[");
    reveal_strlit("],\"brush_size\":");
    reveal_strlit("}}");
    let e = EventV::Erase { prev, cur, brush_size };
    let l1 = lit_erase_head();
    let l2 = lit_cur();
    let l4 = lit_brush_erase();
    let l5 = lit_end();
    let cm = seq![','];
    let px = prev.x;
    let py = prev.y;
    let cx = cur.x;
    let cy = cur.y;
    let u = dec_spec(brush_size as int);
    lemma_dec_spec(brush_size as int);
    lemma_number_token_nonempty(px);
    lemma_number_token_nonempty(py);
    lemma_number_token_nonempty(cx);
    lemma_number_token_nonempty(cy);
    let s = encode_spec(e);

    // Right-nested tails of the wire form, innermost first.
    let r11 = u + l5;
    let r10 = l4 + r11;
    let r7 = cy + r10;
    let r6 = cm + r7;
    let r5 = cx + r6;
    let r4 = l2 + r5;
    let r3 = py + r4;
    let r2 = cm + r3;
    let r1 = px + r2;

    // Rotate the encoder's left-nested concatenation into those tails.
    let c3 = l1 + encode_pair(prev);
    let c4 = c3 + l2;
    let c5 = c4 + encode_pair(cur);
    let c6 = c5 + l4;
    assert(s == c6 + u + l5);
    vstd::seq_lib::lemma_concat_associative(c6, u, l5);
    assert(s == c6 + r11);
    vstd::seq_lib::lemma_concat_associative(c5, l4, r11);
    assert(s == c5 + r10);
    vstd::seq_lib::lemma_concat_associative(c4, encode_pair(cur), r10);
    assert(encode_pair(cur) + r10 == (cx + cm) + cy + r10);
    vstd::seq_lib::lemma_concat_associative(cx + cm, cy, r10);
    vstd::seq_lib::lemma_concat_associative(cx, cm, r7);
    assert(encode_pair(cur) + r10 == r5);
    assert(s == c4 + r5);
    vstd::seq_lib::lemma_concat_associative(c3, l2, r5);
    assert(s == c3 + r4);
    vstd::seq_lib::lemma_concat_associative(l1, encode_pair(prev), r4);
    vstd::seq_lib::lemma_concat_associative(px + cm, py, r4);
    vstd::seq_lib::lemma_concat_associative(px, cm, r3);
    assert(encode_pair(prev) + r4 == r1);
    assert(s == l1 + r1);

    // The erase branch is taken: the payload is longer than the clear
    // literal, and differs from the draw head at the variant letter.
    assert(s =~= Seq::<char>::empty() + l1 + r1);
    lemma_embed(Seq::<char>::empty(), l1, r1);
    assert(tag_at(s, 0, l1));
    lemma_erase_head_selects(s);

    // Walk the tails left to right, pinning every token and literal.
    let i0 = l1.len() as int;
    let a = i0 + px.len();
    let b = a + 1 + py.len();
    let i2 = b + l2.len();
    let c = i2 + cx.len();
    let d = c + 1 + cy.len();
    let u0 = d + l4.len();
    let u1 = u0 + u.len();

    // px
    vstd::seq_lib::lemma_concat_associative(l1, px, r2);
    assert(s == (l1 + px) + r2);
    assert(r2[0] == ',');
    lemma_num_end_extend(l1, px, r2);
    lemma_embed(l1, px, r2);
    assert(num_end(s, i0) == Some(a));
    assert(s.subrange(i0, a) == px);
    let p1 = l1 + px;
    // comma
    vstd::seq_lib::lemma_concat_associative(p1, cm, r3);
    assert(s == (p1 + cm) + r3);
    lemma_embed(p1, cm, r3);
    assert(s[a] == ',') by {
        assert(s.subrange(a, a + 1) == cm);
        assert(s.subrange(a, a + 1)[0] == s[a]);
    }
    let p2 = p1 + cm;
    // py
    vstd::seq_lib::lemma_concat_associative(p2, py, r4);
    assert(s == (p2 + py) + r4);
    assert(r4[0] == ']');
    lemma_num_end_extend(p2, py, r4);
    lemma_embed(p2, py, r4);
    assert(num_end(s, a + 1) == Some(b));
    assert(s.subrange(a + 1, b) == py);
    assert(parse_pair(s, i0) == Some((px, py, b)));
    let p3 = p2 + py;
    // l2
    vstd::seq_lib::lemma_concat_associative(p3, l2, r5);
    assert(s == (p3 + l2) + r5);
    lemma_embed(p3, l2, r5);
    assert(tag_at(s, b, l2));
    let p4 = p3 + l2;
    // cx
    vstd::seq_lib::lemma_concat_associative(p4, cx, r6);
    assert(s == (p4 + cx) + r6);
    assert(r6[0] == ',');
    lemma_num_end_extend(p4, cx, r6);
    lemma_embed(p4, cx, r6);
    assert(num_end(s, i2) == Some(c));
    assert(s.subrange(i2, c) == cx);
    let p5 = p4 + cx;
    // comma
    vstd::seq_lib::lemma_concat_associative(p5, cm, r7);
    assert(s == (p5 + cm) + r7);
    lemma_embed(p5, cm, r7);
    assert(s[c] == ',') by {
        assert(s.subrange(c, c + 1) == cm);
        assert(s.subrange(c, c + 1)[0] == s[c]);
    }
    let p6 = p5 + cm;
    // cy
    vstd::seq_lib::lemma_concat_associative(p6, cy, r10);
    assert(s == (p6 + cy) + r10);
    assert(r10[0] == ']');
    lemma_num_end_extend(p6, cy, r10);
    lemma_embed(p6, cy, r10);
    assert(num_end(s, c + 1) == Some(d));
    assert(s.subrange(c + 1, d) == cy);
    assert(parse_pair(s, b + l2.len()) == Some((cx, cy, d)));
    let p7 = p6 + cy;
    // l4
    vstd::seq_lib::lemma_concat_associative(p7, l4, r11);
    assert(s == (p7 + l4) + r11);
    lemma_embed(p7, l4, r11);
    assert(tag_at(s, d, l4));
    let p8 = p7 + l4;
    // brush size
    vstd::seq_lib::lemma_concat_associative(p8, u, l5);
    assert(s == (p8 + u) + l5);
    lemma_embed(p8, u, l5);
    assert(s.subrange(u0, u1) == u);
    assert(forall|k: int| u0 <= k < u1 ==> digit_pred()(#[trigger] s[k])) by {
        assert(forall|k: int| u0 <= k < u1 ==> s[k] == s.subrange(u0, u1)[k - u0]);
    }
    let p9 = p8 + u;
    assert(s =~= p9 + l5 + Seq::<char>::empty());
    lemma_embed(p9, l5, Seq::<char>::empty());
    assert(tag_at(s, u1, l5));
    assert(s[u1] == '}') by {
        assert(s.subrange(u1, u1 + 2) == l5);
        assert(s.subrange(u1, u1 + 2)[0] == s[u1]);
    }
    assert(!digit_pred()(s[u1]));
    lemma_scan_while_exact(s, u0, u1, digit_pred());
    assert(scan_digits(s, u0) == u1);
    assert(s[u0] == u[0]) by {
        assert(s.subrange(u0, u1)[0] == s[u0]);
    }
    assert(s[u0] == '0' ==> u1 == u0 + 1);
    assert(uint_value(s.subrange(u0, u1)) == brush_size as int);
    assert(parse_uint(s, u0) == Some((brush_size, u1)));
    assert(s.len() == u1 + 2);
    assert(parse_tail(s, u1));

    let got = EventV::Erase {
        prev: CoordV { x: s.subrange(i0, a), y: s.subrange(a + 1, b) },
        cur: CoordV { x: s.subrange(i2, c), y: s.subrange(c + 1, d) },
        brush_size,
    };
    assert(parse_erase(s) == Some(got));
    assert(got =~= e);
    assert(decode_spec(s) == Some(e));
}

#[verifier::rlimit(100)]
proof fn lemma_parse_draw_sound(s: Seq<char>)
    requires
        tag_at(s, 0, lit_draw_head()),
        parse_draw(s) is Some,
    ensures
        valid_event(parse_draw(s).unwrap()),
        encode_spec(parse_draw(s).unwrap()) == s,
{
    reveal_strlit("{\"type\":\"Draw\",\"data\":{\"prev\":[");
    reveal_strlit("],\"cur\":[");
    reveal_strlit("],\"color\":\"");
    reveal_strlit("\",\"brush_size\":");
    reveal_strlit("}}");
    let l1 = lit_draw_head();
    let l2 = lit_cur();
    let l3 = lit_color();
    let l4 = lit_brush_draw();
    let l5 = lit_end();
    let cm = seq![','];
    let n = s.len() as int;
    let i0 = l1.len() as int;

    // Recover every position the parse visited.
    assert(num_end(s, i0) is Some) by {
        if num_end(s, i0) is None {
            assert(parse_draw(s) is None);
        }
    }
    let a = num_end(s, i0).unwrap();
    lemma_num_end_restrict(s, i0, a);
    let px = s.subrange(i0, a);
    assert(a < n && s[a] == ',') by {
        if !(a < n && s[a] == ',') {
            assert(parse_draw(s) is None);
        }
    }
    assert(num_end(s, a + 1) is Some) by {
        if num_end(s, a + 1) is None {
            assert(parse_draw(s) is None);
        }
    }
    let b = num_end(s, a + 1).unwrap();
    lemma_num_end_restrict(s, a + 1, b);
    let py = s.subrange(a + 1, b);
    assert(parse_pair(s, i0) == Some((px, py, b)));
    assert(tag_at(s, b, l2)) by {
        if !tag_at(s, b, l2) {
            assert(parse_draw(s) is None);
        }
    }
    let i2 = b + l2.len() as int;
    assert(num_end(s, i2) is Some) by {
        if num_end(s, i2) is None {
            assert(parse_draw(s) is None);
        }
    }
    let c = num_end(s, i2).unwrap();
    lemma_num_end_restrict(s, i2, c);
    let cx = s.subrange(i2, c);
    assert(c < n && s[c] == ',') by {
        if !(c < n && s[c] == ',') {
            assert(parse_draw(s) is None);
        }
    }
    assert(num_end(s, c + 1) is Some) by {
        if num_end(s, c + 1) is None {
            assert(parse_draw(s) is None);
        }
    }
    let d = num_end(s, c + 1).unwrap();
    lemma_num_end_restrict(s, c + 1, d);
    let cy = s.subrange(c + 1, d);
    assert(parse_pair(s, i2) == Some((cx, cy, d)));
    assert(tag_at(s, d, l3)) by {
        if !tag_at(s, d, l3) {
            assert(parse_draw(s) is None);
        }
    }
    let c0 = d + l3.len() as int;
    let c1 = scan_color(s, c0);
    lemma_scan_while_char(s, c0, color_pred());
    let col = s.subrange(c0, c1);
    assert(is_color_token(col)) by {
        assert(forall|k: int| 0 <= k < col.len() ==> col[k] == s[c0 + k]
            && color_pred()(#[trigger] s[c0 + k]));
    }
    assert(tag_at(s, c1, l4)) by {
        if !tag_at(s, c1, l4) {
            assert(parse_draw(s) is None);
        }
    }
    let u0 = c1 + l4.len() as int;
    let u1 = scan_digits(s, u0);
    lemma_scan_while_char(s, u0, digit_pred());
    assert(u0 < u1 && (s[u0] == '0' ==> u1 == u0 + 1) && uint_value(s.subrange(u0, u1))
        <= u32::MAX) by {
        if !(u0 < u1 && (s[u0] == '0' ==> u1 == u0 + 1) && uint_value(s.subrange(u0, u1))
            <= u32::MAX) {
            assert(parse_uint(s, u0) is None);
            assert(parse_draw(s) is None);
        }
    }
    let tu = s.subrange(u0, u1);
    let bs = uint_value(tu) as u32;
    assert(parse_uint(s, u0) == Some((bs, u1)));
    assert(is_uint_token(tu)) by {
        assert(forall|k: int| 0 <= k < tu.len() ==> tu[k] == s[u0 + k]
            && digit_pred()(#[trigger] s[u0 + k]));
        assert(tu[0] == s[u0]);
    }
    lemma_uint_token_canon(tu);
    assert(dec_spec(bs as int) == tu);
    assert(parse_tail(s, u1)) by {
        if !parse_tail(s, u1) {
            assert(parse_draw(s) is None);
        }
    }
    let e = EventV::Draw {
        prev: CoordV { x: px, y: py },
        cur: CoordV { x: cx, y: cy },
        color: col,
        brush_size: bs,
    };
    assert(parse_draw(s) == Some(e));
    assert(valid_event(e));

    // Reassemble the input from the visited spans.
    assert(s.subrange(u1, n) == l5) by {
        assert(u1 + 2 == n);
        assert(s.subrange(u1, u1 + 2) == l5);
    }
    assert(s.subrange(a, a + 1) =~= cm);
    assert(s.subrange(c, c + 1) =~= cm);
    let r11 = tu + l5;
    let r10 = l4 + r11;
    let r9 = col + r10;
    let r8 = l3 + r9;
    let r7 = cy + r8;
    let r6 = cm + r7;
    let r5 = cx + r6;
    let r4 = l2 + r5;
    let r3 = py + r4;
    let r2 = cm + r3;
    let r1 = px + r2;
    lemma_subrange_split(s, u0, u1, n);
    assert(s.subrange(u0, n) == r11);
    lemma_subrange_split(s, c1, u0, n);
    assert(s.subrange(c1, u0) == l4) by {
        assert(s.subrange(c1, c1 + l4.len() as int) == l4);
    }
    assert(s.subrange(c1, n) == r10);
    lemma_subrange_split(s, c0, c1, n);
    assert(s.subrange(c0, n) == r9);
    lemma_subrange_split(s, d, c0, n);
    assert(s.subrange(d, c0) == l3) by {
        assert(s.subrange(d, d + l3.len() as int) == l3);
    }
    assert(s.subrange(d, n) == r8);
    lemma_subrange_split(s, c + 1, d, n);
    assert(s.subrange(c + 1, n) == r7);
    lemma_subrange_split(s, c, c + 1, n);
    assert(s.subrange(c, n) == r6);
    lemma_subrange_split(s, i2, c, n);
    assert(s.subrange(i2, n) == r5);
    lemma_subrange_split(s, b, i2, n);
    assert(s.subrange(b, i2) == l2) by {
        assert(s.subrange(b, b + l2.len() as int) == l2);
    }
    assert(s.subrange(b, n) == r4);
    lemma_subrange_split(s, a + 1, b, n);
    assert(s.subrange(a + 1, n) == r3);
    lemma_subrange_split(s, a, a + 1, n);
    assert(s.subrange(a, n) == r2);
    lemma_subrange_split(s, i0, a, n);
    assert(s.subrange(i0, n) == r1);
    lemma_subrange_split(s, 0, i0, n);
    assert(s.subrange(0, i0) == l1);
    assert(s.subrange(0, n) =~= s);
    assert(s == l1 + r1);

    // Rotate the encoder's left-nested concatenation into the same shape.
    let enc = encode_spec(e);
    let c3 = l1 + encode_pair(e->Draw_prev);
    let c4 = c3 + l2;
    let c5 = c4 + encode_pair(e->Draw_cur);
    let c6 = c5 + l3;
    let c7 = c6 + col;
    let c8 = c7 + l4;
    assert(enc == c8 + tu + l5);
    vstd::seq_lib::lemma_concat_associative(c8, tu, l5);
    vstd::seq_lib::lemma_concat_associative(c7, l4, r11);
    vstd::seq_lib::lemma_concat_associative(c6, col, r10);
    vstd::seq_lib::lemma_concat_associative(c5, l3, r9);
    assert(enc == c5 + r8);
    vstd::seq_lib::lemma_concat_associative(c4, encode_pair(e->Draw_cur), r8);
    vstd::seq_lib::lemma_concat_associative(cx + cm, cy, r8);
    vstd::seq_lib::lemma_concat_associative(cx, cm, r7);
    assert(encode_pair(e->Draw_cur) + r8 == r5);
    assert(enc == c4 + r5);
    vstd::seq_lib::lemma_concat_associative(c3, l2, r5);
    assert(enc == c3 + r4);
    vstd::seq_lib::lemma_concat_associative(l1, encode_pair(e->Draw_prev), r4);
    vstd::seq_lib::lemma_concat_associative(px + cm, py, r4);
    vstd::seq_lib::lemma_concat_associative(px, cm, r3);
    assert(encode_pair(e->Draw_prev) + r4 == r1);
    assert(enc == l1 + r1);
    assert(enc == s);
}

#[verifier::rlimit(100)]
proof fn lemma_parse_erase_sound(s: Seq<char>)
    requires
        tag_at(s, 0, lit_erase_head()),
        parse_erase(s) is Some,
    ensures
        valid_event(parse_erase(s).unwrap()),
        encode_spec(parse_erase(s).unwrap()) == s,
{
    reveal_strlit("{\"type\":\"Erase\",\"data\":{\"prev\":[");
    reveal_strlit("],\"cur\":[");
    reveal_strlit("],\"brush_size\":");
    reveal_strlit("}}");
    let l1 = lit_erase_head();
    let l2 = lit_cur();
    let l4 = lit_brush_erase();
    let l5 = lit_end();
    let cm = seq![','];
    let n = s.len() as int;
    let i0 = l1.len() as int;

    // Recover every position the parse visited.
    assert(num_end(s, i0) is Some) by {
        if num_end(s, i0) is None {
            assert(parse_erase(s) is None);
        }
    }
    let a = num_end(s, i0).unwrap();
    lemma_num_end_restrict(s, i0, a);
    let px = s.subrange(i0, a);
    assert(a < n && s[a] == ',') by {
        if !(a < n && s[a] == ',') {
            assert(parse_erase(s) is None);
        }
    }
    assert(num_end(s, a + 1) is Some) by {
        if num_end(s, a + 1) is None {
            assert(parse_erase(s) is None);
        }
    }
    let b = num_end(s, a + 1).unwrap();
    lemma_num_end_restrict(s, a + 1, b);
    let py = s.subrange(a + 1, b);
    assert(parse_pair(s, i0) == Some((px, py, b)));
    assert(tag_at(s, b, l2)) by {
        if !tag_at(s, b, l2) {
            assert(parse_erase(s) is None);
        }
    }
    let i2 = b + l2.len() as int;
    assert(num_end(s, i2) is Some) by {
        if num_end(s, i2) is None {
            assert(parse_erase(s) is None);
        }
    }
    let c = num_end(s, i2).unwrap();
    lemma_num_end_restrict(s, i2, c);
    let cx = s.subrange(i2, c);
    assert(c < n && s[c] == ',') by {
        if !(c < n && s[c] == ',') {
            assert(parse_erase(s) is None);
        }
    }
    assert(num_end(s, c + 1) is Some) by {
        if num_end(s, c + 1) is None {
            assert(parse_erase(s) is None);
        }
    }
    let d = num_end(s, c + 1).unwrap();
    lemma_num_end_restrict(s, c + 1, d);
    let cy = s.subrange(c + 1, d);
    assert(parse_pair(s, i2) == Some((cx, cy, d)));
    assert(tag_at(s, d, l4)) by {
        if !tag_at(s, d, l4) {
            assert(parse_erase(s) is None);
        }
    }
    let u0 = d + l4.len() as int;
    let u1 = scan_digits(s, u0);
    lemma_scan_while_char(s, u0, digit_pred());
    assert(u0 < u1 && (s[u0] == '0' ==> u1 == u0 + 1) && uint_value(s.subrange(u0, u1))
        <= u32::MAX) by {
        if !(u0 < u1 && (s[u0] == '0' ==> u1 == u0 + 1) && uint_value(s.subrange(u0, u1))
            <= u32::MAX) {
            assert(parse_uint(s, u0) is None);
            assert(parse_erase(s) is None);
        }
    }
    let tu = s.subrange(u0, u1);
    let bs = uint_value(tu) as u32;
    assert(parse_uint(s, u0) == Some((bs, u1)));
    assert(is_uint_token(tu)) by {
        assert(forall|k: int| 0 <= k < tu.len() ==> tu[k] == s[u0 + k]
            && digit_pred()(#[trigger] s[u0 + k]));
        assert(tu[0] == s[u0]);
    }
    lemma_uint_token_canon(tu);
    assert(dec_spec(bs as int) == tu);
    assert(parse_tail(s, u1)) by {
        if !parse_tail(s, u1) {
            assert(parse_erase(s) is None);
        }
    }
    let e = EventV::Erase {
        prev: CoordV { x: px, y: py },
        cur: CoordV { x: cx, y: cy },
        brush_size: bs,
    };
    assert(parse_erase(s) == Some(e));
    assert(valid_event(e));

    // Reassemble the input from the visited spans.
    assert(s.subrange(u1, n) == l5) by {
        assert(u1 + 2 == n);
        assert(s.subrange(u1, u1 + 2) == l5);
    }
    assert(s.subrange(a, a + 1) =~= cm);
    assert(s.subrange(c, c + 1) =~= cm);
    let r11 = tu + l5;
    let r10 = l4 + r11;
    let r7 = cy + r10;
    let r6 = cm + r7;
    let r5 = cx + r6;
    let r4 = l2 + r5;
    let r3 = py + r4;
    let r2 = cm + r3;
    let r1 = px + r2;
    lemma_subrange_split(s, u0, u1, n);
    assert(s.subrange(u0, n) == r11);
    lemma_subrange_split(s, d, u0, n);
    assert(s.subrange(d, u0) == l4) by {
        assert(s.subrange(d, d + l4.len() as int) == l4);
    }
    assert(s.subrange(d, n) == r10);
    lemma_subrange_split(s, c + 1, d, n);
    assert(s.subrange(c + 1, n) == r7);
    lemma_subrange_split(s, c, c + 1, n);
    assert(s.subrange(c, n) == r6);
    lemma_subrange_split(s, i2, c, n);
    assert(s.subrange(i2, n) == r5);
    lemma_subrange_split(s, b, i2, n);
    assert(s.subrange(b, i2) == l2) by {
        assert(s.subrange(b, b + l2.len() as int) == l2);
    }
    assert(s.subrange(b, n) == r4);
    lemma_subrange_split(s, a + 1, b, n);
    assert(s.subrange(a + 1, n) == r3);
    lemma_subrange_split(s, a, a + 1, n);
    assert(s.subrange(a, n) == r2);
    lemma_subrange_split(s, i0, a, n);
    assert(s.subrange(i0, n) == r1);
    lemma_subrange_split(s, 0, i0, n);
    assert(s.subrange(0, i0) == l1);
    assert(s.subrange(0, n) =~= s);
    assert(s == l1 + r1);

    // Rotate the encoder's left-nested concatenation into the same shape.
    let enc = encode_spec(e);
    let c3 = l1 + encode_pair(e->Erase_prev);
    let c4 = c3 + l2;
    let c5 = c4 + encode_pair(e->Erase_cur);
    let c6 = c5 + l4;
    assert(enc == c6 + tu + l5);
    vstd::seq_lib::lemma_concat_associative(c6, tu, l5);
    vstd::seq_lib::lemma_concat_associative(c5, l4, r11);
    assert(enc == c5 + r10);
    vstd::seq_lib::lemma_concat_associative(c4, encode_pair(e->Erase_cur), r10);
    vstd::seq_lib::lemma_concat_associative(cx + cm, cy, r10);
    vstd::seq_lib::lemma_concat_associative(cx, cm, r7);
    assert(encode_pair(e->Erase_cur) + r10 == r5);
    assert(enc == c4 + r5);
    vstd::seq_lib::lemma_concat_associative(c3, l2, r5);
    assert(enc == c3 + r4);
    vstd::seq_lib::lemma_concat_associative(l1, encode_pair(e->Erase_prev), r4);
    vstd::seq_lib::lemma_concat_associative(px + cm, py, r4);
    vstd::seq_lib::lemma_concat_associative(px, cm, r3);
    assert(encode_pair(e->Erase_prev) + r4 == r1);
    assert(enc == l1 + r1);
    assert(enc == s);
}

/// The decoder is exact: whatever decodes is a well-formed event whose
/// wire form is the input itself, character for character.
pub proof fn lemma_decode_sound(s: Seq<char>)
    requires
        decode_spec(s) is Some,
    ensures
        valid_event(decode_spec(s).unwrap()),
        encode_spec(decode_spec(s).unwrap()) == s,
{
    if s == lit_clear() {
    } else if tag_at(s, 0, lit_draw_head()) {
        lemma_parse_draw_sound(s);
    } else if tag_at(s, 0, lit_erase_head()) {
        lemma_parse_erase_sound(s);
    }
}

/// A payload that is the wire form of no well-formed event decodes to
/// nothing: the decoder accepts exactly the three shapes.
pub proof fn lemma_reject_malformed(s: Seq<char>)
    requires
        forall|e: EventV| valid_event(e) ==> #[trigger] encode_spec(e) != s,
    ensures
        decode_spec(s) is None,
{
    if decode_spec(s) is Some {
        lemma_decode_sound(s);
        let e = decode_spec(s).unwrap();
        assert(encode_spec(e) != s);
    }
}

/// Relaying is lossless: every well-formed event survives a round trip
/// through its wire form unchanged.
pub proof fn lemma_round_trip(e: EventV)
    requires
        valid_event(e),
    ensures
        decode_spec(encode_spec(e)) == Some(e),
{
    match e {
        EventV::Clear => {
            assert(encode_spec(e) == lit_clear());
        },
        EventV::Draw { prev, cur, color, brush_size } => {
            lemma_round_trip_draw(prev, cur, color, brush_size);
        },
        EventV::Erase { prev, cur, brush_size } => {
            lemma_round_trip_erase(prev, cur, brush_size);
        },
    }
}

// ---------------------------------------------------------------------------
// Executable encoder
// ---------------------------------------------------------------------------

fn digit_char(d: u32) -> (c: char)
    requires
        d < 10,
    ensures
        c == digit_chr(d as int),
{
    if d == 0 { '0' }
    else if d == 1 { '1' }
    else if d == 2 { '2' }
    else if d == 3 { '3' }
    else if d == 4 { '4' }
    else if d == 5 { '5' }
    else if d == 6 { '6' }
    else if d == 7 { '7' }
    else if d == 8 { '8' }
    else { '9' }
}

fn push_lit(out: &mut Vec<char>, lit: &str)
    ensures
        final(out)@ == old(out)@ + lit@,
{
    let n = lit.unicode_len();
    let mut j: usize = 0;
    while j < n
        invariant
            n == lit@.len(),
            j <= n,
            out@ == old(out)@ + lit@.subrange(0, j as int),
        decreases n - j,
    {
        let c = lit.get_char(j);
        out.push(c);
        proof {
            assert(old(out)@ + lit@.subrange(0, j + 1) =~= (old(out)@ + lit@.subrange(
                0,
                j as int,
            )).push(lit@[j as int]));
        }
        j = j + 1;
    }
    proof {
        assert(lit@.subrange(0, n as int) =~= lit@);
    }
}

fn push_token(out: &mut Vec<char>, t: &Vec<char>)
    ensures
        final(out)@ == old(out)@ + t@,
{
    let n = t.len();
    let mut j: usize = 0;
    while j < n
        invariant
            n == t@.len(),
            j <= n,
            out@ == old(out)@ + t@.subrange(0, j as int),
        decreases n - j,
    {
        out.push(t[j]);
        proof {
            assert(old(out)@ + t@.subrange(0, j + 1) =~= (old(out)@ + t@.subrange(
                0,
                j as int,
            )).push(t@[j as int]));
        }
        j = j + 1;
    }
    proof {
        assert(t@.subrange(0, n as int) =~= t@);
    }
}

fn push_comma(out: &mut Vec<char>)
    ensures
        final(out)@ == old(out)@ + seq![','],
{
    out.push(',');
    proof {
        assert(out@ =~= old(out)@ + seq![',']);
    }
}

fn push_u32(out: &mut Vec<char>, v: u32)
    ensures
        final(out)@ == old(out)@ + dec_spec(v as int),
    decreases v,
{
    if v < 10 {
        out.push(digit_char(v));
        proof {
            assert(out@ =~= old(out)@ + dec_spec(v as int));
        }
    } else {
        push_u32(out, v / 10);
        out.push(digit_char(v % 10));
        proof {
            assert(dec_spec(v as int) == dec_spec(v as int / 10).push(digit_chr(v as int % 10)));
            assert(v as int / 10 == (v / 10) as int && v as int % 10 == (v % 10) as int);
            assert(out@ =~= old(out)@ + dec_spec(v as int));
        }
    }
}

/// Render an event in its canonical wire form.
pub fn encode(e: &Event) -> (out: Vec<char>)
    ensures
        out@ == encode_spec(e@),
{
    let mut out: Vec<char> = Vec::new();
    match e {
        Event::Clear => {
            push_lit(&mut out, "{\"type\":\"Clear\"}");
            proof {
                assert(out@ =~= encode_spec(e@));
            }
        },
        Event::Draw { prev, cur, color, brush_size } => {
            push_lit(&mut out, "{\"type\":\"Draw\",\"data\":{\"prev\":[");
            push_token(&mut out, &prev.x);
            push_comma(&mut out);
            push_token(&mut out, &prev.y);
            push_lit(&mut out, "],\"cur\":[");
            push_token(&mut out, &cur.x);
            push_comma(&mut out);
            push_token(&mut out, &cur.y);
            push_lit(&mut out, "],\"color\":\"");
            push_token(&mut out, color);
            push_lit(&mut out, "\",\"brush_size\":");
            push_u32(&mut out, *brush_size);
            push_lit(&mut out, "}}");
            proof {
                let l1 = lit_draw_head();
                assert(Seq::<char>::empty() + l1 =~= l1);
                let cm = seq![','];
                vstd::seq_lib::lemma_concat_associative(l1, prev.x@, cm);
                vstd::seq_lib::lemma_concat_associative(l1, prev.x@ + cm, prev.y@);
                let a1 = l1 + encode_pair(prev@) + lit_cur();
                vstd::seq_lib::lemma_concat_associative(a1, cur.x@, cm);
                vstd::seq_lib::lemma_concat_associative(a1, cur.x@ + cm, cur.y@);
                assert(out@ == encode_spec(e@));
            }
        },
        Event::Erase { prev, cur, brush_size } => {
            push_lit(&mut out, "{\"type\":\"Erase\",\"data\":{\"prev\":[");
            push_token(&mut out, &prev.x);
            push_comma(&mut out);
            push_token(&mut out, &prev.y);
            push_lit(&mut out, "],\"cur\":[");
            push_token(&mut out, &cur.x);
            push_comma(&mut out);
            push_token(&mut out, &cur.y);
            push_lit(&mut out, "],\"brush_size\":");
            push_u32(&mut out, *brush_size);
            push_lit(&mut out, "}}");
            proof {
                let l1 = lit_erase_head();
                assert(Seq::<char>::empty() + l1 =~= l1);
                let cm = seq![','];
                vstd::seq_lib::lemma_concat_associative(l1, prev.x@, cm);
                vstd::seq_lib::lemma_concat_associative(l1, prev.x@ + cm, prev.y@);
                let a1 = l1 + encode_pair(prev@) + lit_cur();
                vstd::seq_lib::lemma_concat_associative(a1, cur.x@, cm);
                vstd::seq_lib::lemma_concat_associative(a1, cur.x@ + cm, cur.y@);
                assert(out@ == encode_spec(e@));
            }
        },
    }
    out
}

/// Relies on `String`'s `FromIterator` over `char`: collecting characters
/// builds the string of exactly those characters, in order.
#[verifier::external_body]
fn chars_to_string(v: &Vec<char>) -> (s: String)
    ensures
        s@ == v@,
{
    v.iter().collect()
}

/// Render an event in its canonical wire form, as a `String`.
pub fn encode_text(e: &Event) -> (t: String)
    ensures
        t@ == encode_spec(e@),
{
    let out = encode(e);
    chars_to_string(&out)
}

// ---------------------------------------------------------------------------
// Executable decoder
// ---------------------------------------------------------------------------

fn is_digit_x(c: char) -> (r: bool)
    ensures
        r == is_digit(c),
{
    c == '0' || c == '1' || c == '2' || c == '3' || c == '4' || c == '5' || c == '6' || c == '7'
        || c == '8' || c == '9'
}

fn digit_val_x(c: char) -> (r: u32)
    requires
        is_digit(c),
    ensures
        r as int == digit_val(c),
        r <= 9,
{
    if c == '0' { 0 }
    else if c == '1' { 1 }
    else if c == '2' { 2 }
    else if c == '3' { 3 }
    else if c == '4' { 4 }
    else if c == '5' { 5 }
    else if c == '6' { 6 }
    else if c == '7' { 7 }
    else if c == '8' { 8 }
    else { 9 }
}

fn scan_digits_x(s: &str, i: usize) -> (j: usize)
    requires
        i <= s@.len(),
    ensures
        j as int == scan_digits(s@, i as int),
        i <= j <= s@.len(),
{
    let n = s.unicode_len();
    let mut j = i;
    while j < n && is_digit_x(s.get_char(j))
        invariant
            i <= j <= n,
            n == s@.len(),
            scan_digits(s@, i as int) == scan_digits(s@, j as int),
        decreases n - j,
    {
        proof {
            assert(digit_pred()(s@[j as int]));
            assert(scan_while(s@, j as int, digit_pred()) == scan_while(
                s@,
                j + 1,
                digit_pred(),
            ));
        }
        j = j + 1;
    }
    proof {
        assert(scan_while(s@, j as int, digit_pred()) == j as int);
    }
    j
}

fn scan_color_x(s: &str, i: usize) -> (j: usize)
    requires
        i <= s@.len(),
    ensures
        j as int == scan_color(s@, i as int),
        i <= j <= s@.len(),
{
    let n = s.unicode_len();
    let mut j = i;
    while j < n && s.get_char(j) != '"' && s.get_char(j) != '\\'
        invariant
            i <= j <= n,
            n == s@.len(),
            scan_color(s@, i as int) == scan_color(s@, j as int),
        decreases n - j,
    {
        proof {
            assert(color_pred()(s@[j as int]));
            assert(scan_while(s@, j as int, color_pred()) == scan_while(
                s@,
                j + 1,
                color_pred(),
            ));
        }
        j = j + 1;
    }
    proof {
        assert(scan_while(s@, j as int, color_pred()) == j as int);
    }
    j
}

fn tag_x(s: &str, i: usize, lit: &str) -> (b: bool)
    ensures
        b == tag_at(s@, i as int, lit@),
{
    let n = s.unicode_len();
    let m = lit.unicode_len();
    if i > n || m > n - i {
        return false;
    }
    let mut j: usize = 0;
    while j < m && s.get_char(i + j) == lit.get_char(j)
        invariant
            j <= m,
            i + m <= n,
            n == s@.len(),
            m == lit@.len(),
            forall|k: int| 0 <= k < j ==> s@[i + k] == #[trigger] lit@[k],
        decreases m - j,
    {
        j = j + 1;
    }
    if j == m {
        proof {
            assert(s@.subrange(i as int, i + m) =~= lit@);
        }
        true
    } else {
        proof {
            if tag_at(s@, i as int, lit@) {
                assert(s@.subrange(i as int, i + m)[j as int] == s@[i + j]);
            }
        }
        false
    }
}

fn num_end_x(s: &str, i: usize) -> (r: Option<usize>)
    requires
        i <= s@.len(),
    ensures
        match r {
            Some(j) => num_end(s@, i as int) == Some(j as int) && i < j <= s@.len(),
            None => num_end(s@, i as int) is None,
        },
{
    let n = s.unicode_len();
    let a = if i < n && s.get_char(i) == '-' {
        i + 1
    } else {
        i
    };
    if !(a < n && is_digit_x(s.get_char(a))) {
        return None;
    }
    let b = if s.get_char(a) == '0' {
        a + 1
    } else {
        proof {
            assert(digit_pred()(s@[a as int]));
            assert(scan_while(s@, a as int, digit_pred()) == scan_while(s@, a + 1, digit_pred()));
            lemma_scan_while_char(s@, a + 1, digit_pred());
        }
        scan_digits_x(s, a)
    };
    let c = if b < n && s.get_char(b) == '.' {
        if b + 1 < n && is_digit_x(s.get_char(b + 1)) {
            scan_digits_x(s, b + 1)
        } else {
            proof {
                assert(frac_end(s@, b as int) is None);
            }
            return None;
        }
    } else {
        b
    };
    if c < n && (s.get_char(c) == 'e' || s.get_char(c) == 'E') {
        let d = if c + 1 < n && (s.get_char(c + 1) == '+' || s.get_char(c + 1) == '-') {
            c + 2
        } else {
            c + 1
        };
        if d < n && is_digit_x(s.get_char(d)) {
            let j = scan_digits_x(s, d);
            proof {
                assert(digit_pred()(s@[d as int]));
                assert(scan_while(s@, d as int, digit_pred()) == scan_while(
                    s@,
                    d + 1,
                    digit_pred(),
                ));
                lemma_scan_while_char(s@, d + 1, digit_pred());
                assert(exp_end(s@, c as int) == Some(j as int));
            }
            Some(j)
        } else {
            proof {
                assert(exp_end(s@, c as int) is None);
            }
            None
        }
    } else {
        proof {
            assert(exp_end(s@, c as int) == Some(c as int));
        }
        Some(c)
    }
}

fn parse_uint_x(s: &str, i: usize) -> (r: Option<(u32, usize)>)
    requires
        i <= s@.len(),
    ensures
        match r {
            Some(v) => parse_uint(s@, i as int) == Some((v.0, v.1 as int)) && i < v.1 <= s@.len(),
            None => parse_uint(s@, i as int) is None,
        },
{
    let j = scan_digits_x(s, i);
    if j == i {
        return None;
    }
    if s.get_char(i) == '0' && j != i + 1 {
        return None;
    }
    proof {
        lemma_scan_while_char(s@, i as int, digit_pred());
    }
    let ghost tok = s@.subrange(i as int, j as int);
    let mut acc: u64 = 0;
    let mut k = i;
    while k < j
        invariant
            i <= k <= j <= s@.len(),
            j as int == scan_digits(s@, i as int),
            forall|m: int| i <= m < j ==> is_digit(#[trigger] s@[m]),
            acc as int == uint_value(s@.subrange(i as int, k as int)),
            acc <= u32::MAX as u64,
            tok == s@.subrange(i as int, j as int),
        decreases j - k,
    {
        let c = s.get_char(k);
        let d = digit_val_x(c);
        let next: u64 = acc * 10 + (d as u64);
        proof {
            assert(s@.subrange(i as int, k + 1).drop_last() =~= s@.subrange(i as int, k as int));
            assert(s@.subrange(i as int, k + 1).last() == s@[k as int]);
            assert(next as int == uint_value(s@.subrange(i as int, k + 1)));
        }
        if next > (u32::MAX as u64) {
            proof {
                assert(forall|m: int| 0 <= m < tok.len() ==> is_digit(#[trigger] tok[m]));
                assert(tok.subrange(0, k + 1 - i) =~= s@.subrange(i as int, k + 1));
                lemma_uint_prefix(tok, k + 1 - i);
                assert(uint_value(tok) > u32::MAX);
                assert(parse_uint(s@, i as int) is None);
            }
            return None;
        }
        acc = next;
        k = k + 1;
    }
    proof {
        assert(s@.subrange(i as int, k as int) == tok);
        assert(parse_uint(s@, i as int) == Some((uint_value(tok) as u32, j as int)));
    }
    Some((acc as u32, j))
}

fn copy_range(s: &str, a: usize, b: usize) -> (r: Vec<char>)
    requires
        a <= b <= s@.len(),
    ensures
        r@ == s@.subrange(a as int, b as int),
{
    let mut r: Vec<char> = Vec::new();
    let mut j = a;
    while j < b
        invariant
            a <= j <= b <= s@.len(),
            r@ == s@.subrange(a as int, j as int),
        decreases b - j,
    {
        r.push(s.get_char(j));
        proof {
            assert(s@.subrange(a as int, j + 1) =~= s@.subrange(a as int, j as int).push(
                s@[j as int],
            ));
        }
        j = j + 1;
    }
    r
}

fn parse_draw_x(s: &str) -> (r: Result<Event, DecodeError>)
    requires
        tag_at(s@, 0, lit_draw_head()),
    ensures
        r is Ok <==> parse_draw(s@) is Some,
        r matches Ok(ev) ==> parse_draw(s@) == Some(ev@),
{
    let n = s.unicode_len();
    let head = "{\"type\":\"Draw\",\"data\":{\"prev\":[";
    let i0 = head.unicode_len();
    proof {
        assert(head@ == lit_draw_head());
        assert(i0 as int <= s@.len());
    }
    let a = match num_end_x(s, i0) {
        Some(a) => a,
        None => { return Err(DecodeError::Malformed) },
    };
    if !(a < n && s.get_char(a) == ',') {
        return Err(DecodeError::Malformed);
    }
    let b = match num_end_x(s, a + 1) {
        Some(b) => b,
        None => { return Err(DecodeError::Malformed) },
    };
    let lcur = "],\"cur\":[";
    if !tag_x(s, b, lcur) {
        return Err(DecodeError::Malformed);
    }
    proof {
        assert(lcur@ == lit_cur());
    }
    let i2 = b + lcur.unicode_len();
    let c = match num_end_x(s, i2) {
        Some(c) => c,
        None => { return Err(DecodeError::Malformed) },
    };
    if !(c < n && s.get_char(c) == ',') {
        return Err(DecodeError::Malformed);
    }
    let d = match num_end_x(s, c + 1) {
        Some(d) => d,
        None => { return Err(DecodeError::Malformed) },
    };
    let lcolor = "],\"color\":\"";
    if !tag_x(s, d, lcolor) {
        return Err(DecodeError::Malformed);
    }
    proof {
        assert(lcolor@ == lit_color());
    }
    let c0 = d + lcolor.unicode_len();
    let c1 = scan_color_x(s, c0);
    let lbrush = "\",\"brush_size\":";
    if !tag_x(s, c1, lbrush) {
        return Err(DecodeError::Malformed);
    }
    proof {
        assert(lbrush@ == lit_brush_draw());
    }
    let u0 = c1 + lbrush.unicode_len();
    let (bs, u1) = match parse_uint_x(s, u0) {
        Some(v) => v,
        None => { return Err(DecodeError::Malformed) },
    };
    let lend = "}}";
    proof {
        assert(lend@ == lit_end());
    }
    if !tag_x(s, u1, lend) {
        return Err(DecodeError::Malformed);
    }
    let endlen = lend.unicode_len();
    if u1 + endlen != n {
        proof {
            assert(!parse_tail(s@, u1 as int));
        }
        return Err(DecodeError::Malformed);
    }
    proof {
        assert(parse_tail(s@, u1 as int));
    }
    let ev = Event::Draw {
        prev: Coord { x: copy_range(s, i0, a), y: copy_range(s, a + 1, b) },
        cur: Coord { x: copy_range(s, i2, c), y: copy_range(s, c + 1, d) },
        color: copy_range(s, c0, c1),
        brush_size: bs,
    };
    proof {
        assert(parse_draw(s@) == Some(ev@));
    }
    Ok(ev)
}

fn parse_erase_x(s: &str) -> (r: Result<Event, DecodeError>)
    requires
        tag_at(s@, 0, lit_erase_head()),
    ensures
        r is Ok <==> parse_erase(s@) is Some,
        r matches Ok(ev) ==> parse_erase(s@) == Some(ev@),
{
    let n = s.unicode_len();
    let head = "{\"type\":\"Erase\",\"data\":{\"prev\":[";
    let i0 = head.unicode_len();
    proof {
        assert(head@ == lit_erase_head());
        assert(i0 as int <= s@.len());
    }
    let a = match num_end_x(s, i0) {
        Some(a) => a,
        None => { return Err(DecodeError::Malformed) },
    };
    if !(a < n && s.get_char(a) == ',') {
        return Err(DecodeError::Malformed);
    }
    let b = match num_end_x(s, a + 1) {
        Some(b) => b,
        None => { return Err(DecodeError::Malformed) },
    };
    let lcur = "],\"cur\":[";
    if !tag_x(s, b, lcur) {
        return Err(DecodeError::Malformed);
    }
    proof {
        assert(lcur@ == lit_cur());
    }
    let i2 = b + lcur.unicode_len();
    let c = match num_end_x(s, i2) {
        Some(c) => c,
        None => { return Err(DecodeError::Malformed) },
    };
    if !(c < n && s.get_char(c) == ',') {
        return Err(DecodeError::Malformed);
    }
    let d = match num_end_x(s, c + 1) {
        Some(d) => d,
        None => { return Err(DecodeError::Malformed) },
    };
    let lbrush = "],\"brush_size\":";
    if !tag_x(s, d, lbrush) {
        return Err(DecodeError::Malformed);
    }
    proof {
        assert(lbrush@ == lit_brush_erase());
    }
    let u0 = d + lbrush.unicode_len();
    let (bs, u1) = match parse_uint_x(s, u0) {
        Some(v) => v,
        None => { return Err(DecodeError::Malformed) },
    };
    let lend = "}}";
    proof {
        assert(lend@ == lit_end());
    }
    if !tag_x(s, u1, lend) {
        return Err(DecodeError::Malformed);
    }
    let endlen = lend.unicode_len();
    if u1 + endlen != n {
        proof {
            assert(!parse_tail(s@, u1 as int));
        }
        return Err(DecodeError::Malformed);
    }
    proof {
        assert(parse_tail(s@, u1 as int));
    }
    let ev = Event::Erase {
        prev: Coord { x: copy_range(s, i0, a), y: copy_range(s, a + 1, b) },
        cur: Coord { x: copy_range(s, i2, c), y: copy_range(s, c + 1, d) },
        brush_size: bs,
    };
    proof {
        assert(parse_erase(s@) == Some(ev@));
    }
    Ok(ev)
}

/// Parse one inbound payload. Exactly the payloads in one of the three
/// wire shapes decode; everything they carry is preserved, so that the
/// decoded event re-encodes to the input itself.
pub fn decode(s: &str) -> (r: Result<Event, DecodeError>)
    ensures
        r is Ok <==> decode_spec(s@) is Some,
        r matches Ok(ev) ==> decode_spec(s@) == Some(ev@) && valid_event(ev@) && encode_spec(ev@)
            == s@,
        r is Err ==> decode_spec(s@) is None,
{
    let n = s.unicode_len();
    let lclear = "{\"type\":\"Clear\"}";
    let m = lclear.unicode_len();
    proof {
        assert(lclear@ == lit_clear());
    }
    let r: Result<Event, DecodeError> = if tag_x(s, 0, lclear) && n == m {
        proof {
            assert(s@.subrange(0, m as int) =~= s@);
            assert(s@ == lit_clear());
        }
        Ok(Event::Clear)
    } else {
        proof {
            if s@ == lit_clear() {
                assert(s@.subrange(0, m as int) =~= lit_clear());
                assert(tag_at(s@, 0, lit_clear()));
            }
        }
        let ldraw = "{\"type\":\"Draw\",\"data\":{\"prev\":[";
        let lerase = "{\"type\":\"Erase\",\"data\":{\"prev\":[";
        proof {
            assert(ldraw@ == lit_draw_head());
            assert(lerase@ == lit_erase_head());
        }
        if tag_x(s, 0, ldraw) {
            parse_draw_x(s)
        } else if tag_x(s, 0, lerase) {
            parse_erase_x(s)
        } else {
            Err(DecodeError::Malformed)
        }
    };
    proof {
        if r is Ok {
            lemma_decode_sound(s@);
        }
    }
    r
}

} // verus!
