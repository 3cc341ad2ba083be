use vstd::prelude::*;
use vstd::string::StringSliceAdditionalSpecFns;

verus! {

/// A color in premultiplied form: each of `r`, `g`, `b` is already scaled by
/// the alpha `a`, all on the 0..=255 scale.
#[derive(Clone, Copy, Debug, PartialEq, Eq, Structural)]
pub struct Color {
    pub r: u8,
    pub g: u8,
    pub b: u8,
    pub a: u8,
}

impl Color {
    /// No color channel exceeds the alpha.
    pub open spec fn is_premultiplied(self) -> bool {
        self.r <= self.a && self.g <= self.a && self.b <= self.a
    }

    /// Channel `k` (0 red, 1 green, 2 blue, 3 alpha).
    pub open spec fn channel(self, k: int) -> int {
        if k == 0 {
            self.r as int
        } else if k == 1 {
            self.g as int
        } else if k == 2 {
            self.b as int
        } else {
            self.a as int
        }
    }

    /// Opaque black.
    pub fn black() -> (r: Color)
        ensures
            r == black(),
    {
        Color { r: 0, g: 0, b: 0, a: 255 }
    }
}

pub const SPACE: u8 = 32;

/// ASCII whitespace: tab, line feed, form feed, carriage return, space.
pub open spec fn is_space(c: u8) -> bool {
    c == 9 || c == 10 || c == 12 || c == 13 || c == SPACE
}
pub const COMMA: u8 = 44;
pub const DOT: u8 = 46;
pub const HASH: u8 = 35;
pub const PLUS: u8 = 43;
pub const MINUS: u8 = 45;

/// Opaque black, the fallback of the parser.
pub open spec fn black() -> Color {
    Color { r: 0, g: 0, b: 0, a: 255 }
}

pub open spec fn is_upper(c: u8) -> bool {
    65 <= c <= 90
}

pub open spec fn to_lower(c: u8) -> u8 {
    if is_upper(c) { (c + 32) as u8 } else { c }
}

/// The input with ASCII letters lowercased and all ASCII whitespace removed.
pub open spec fn normalize(s: Seq<u8>) -> Seq<u8>
    decreases s.len(),
{
    if s.len() == 0 {
        Seq::empty()
    } else {
        let rest = normalize(s.drop_last());
        if is_space(s.last()) { rest } else { rest.push(to_lower(s.last())) }
    }
}

pub open spec fn is_digit(c: u8) -> bool {
    48 <= c <= 57
}

pub open spec fn all_digits(s: Seq<u8>) -> bool {
    forall|i: int| 0 <= i < s.len() ==> is_digit(#[trigger] s[i])
}

/// The decimal value of a run of digits.
pub open spec fn digits_val(s: Seq<u8>) -> nat
    decreases s.len(),
{
    if s.len() == 0 {
        0
    } else {
        digits_val(s.drop_last()) * 10 + (s.last() - 48) as nat
    }
}

/// Index of the first `.` of `f`, or its length when it has none.
pub open spec fn dot_index(f: Seq<u8>) -> int
    decreases f.len(),
{
    if f.len() == 0 {
        0
    } else if f[0] == DOT {
        0
    } else {
        1 + dot_index(f.drop_first())
    }
}

pub open spec fn int_part(f: Seq<u8>) -> Seq<u8> {
    f.take(dot_index(f))
}

pub open spec fn frac_part(f: Seq<u8>) -> Seq<u8> {
    if dot_index(f) < f.len() { f.skip(dot_index(f) + 1) } else { Seq::empty() }
}

/// A plain decimal number: digits, optionally a point and more digits, with at
/// least one digit in all.
pub open spec fn is_number(f: Seq<u8>) -> bool {
    &&& all_digits(int_part(f))
    &&& all_digits(frac_part(f))
    &&& int_part(f).len() + frac_part(f).len() >= 1
}

/// An unsigned color channel on the 0..=255 scale, rounded half up and
/// clamped to 255; a field that is no number counts as 0.
pub open spec fn unsigned_channel_of(f: Seq<u8>) -> int {
    if !is_number(f) {
        0
    } else {
        let fr = frac_part(f);
        let up: int = if fr.len() > 0 && fr[0] >= 53 { 1 } else { 0 };
        let v = digits_val(int_part(f)) + up;
        if v > 255 { 255 } else { v }
    }
}

/// Number of fraction digits of an alpha that count.
pub const ALPHA_DIGITS: usize = 9;

pub open spec fn pow10(k: nat) -> nat
    decreases k,
{
    if k == 0 { 1 } else { 10 * pow10((k - 1) as nat) }
}

/// An unsigned alpha on the 0.0..=1.0 scale taken to 0..=255, rounded half
/// up, clamped to 255, its fraction read to nine digits; a field that is no
/// number counts as 1.0.
pub open spec fn unsigned_alpha_of(f: Seq<u8>) -> int {
    if !is_number(f) || digits_val(int_part(f)) >= 1 {
        255
    } else {
        let fr = frac_part(f);
        let k: nat = if fr.len() > ALPHA_DIGITS { ALPHA_DIGITS as nat } else { fr.len() };
        let num = digits_val(fr.take(k as int));
        ((num * 510 + pow10(k)) / (2 * pow10(k))) as int
    }
}

/// Whether the field opens with a `+` or `-` sign.
pub open spec fn has_sign(f: Seq<u8>) -> bool {
    f.len() > 0 && (f[0] == PLUS || f[0] == MINUS)
}

/// The field without its sign.
pub open spec fn unsigned_part(f: Seq<u8>) -> Seq<u8> {
    if has_sign(f) { f.skip(1) } else { f }
}

/// A field that is a number below zero.
pub open spec fn is_negative(f: Seq<u8>) -> bool {
    has_sign(f) && f[0] == MINUS && is_number(unsigned_part(f))
}

/// A color channel, signed: a negative number clamps to 0.
pub open spec fn channel_of(f: Seq<u8>) -> int {
    if is_negative(f) { 0 } else { unsigned_channel_of(unsigned_part(f)) }
}

/// An alpha, signed: a negative number clamps to 0.
pub open spec fn alpha_of(f: Seq<u8>) -> int {
    if is_negative(f) { 0 } else { unsigned_alpha_of(unsigned_part(f)) }
}

/// A straight channel scaled by an alpha, both on 0..=255, rounded half up.
pub open spec fn premul(c: int, a: int) -> int {
    (c * a * 2 + 255) / 510
}

pub open spec fn is_trim_char(c: u8) -> bool {
    c == 114 || c == 103 || c == 98 || c == 97 || c == 40 || c == 41
}

/// Index of the first byte at or after `i` that is not one of `rgba()`.
pub open spec fn trim_start(s: Seq<u8>, i: int) -> int
    decreases s.len() - i,
{
    if i >= s.len() {
        s.len() as int
    } else if is_trim_char(s[i]) {
        trim_start(s, i + 1)
    } else {
        i
    }
}

/// End of `s[lo..j]` once trailing bytes of `rgba()` are dropped.
pub open spec fn trim_end(s: Seq<u8>, lo: int, j: int) -> int
    decreases j - lo,
{
    if j <= lo {
        lo
    } else if is_trim_char(s[j - 1]) {
        trim_end(s, lo, j - 1)
    } else {
        j
    }
}

/// `s` with the letters `r`, `g`, `b`, `a` and parentheses cut from both ends.
pub open spec fn trimmed(s: Seq<u8>) -> Seq<u8> {
    let lo = trim_start(s, 0);
    s.subrange(lo, trim_end(s, lo, s.len() as int))
}

/// The comma-separated fields of `s`; there is always at least one.
pub open spec fn split_commas(s: Seq<u8>) -> Seq<Seq<u8>>
    decreases s.len(),
{
    if s.len() == 0 {
        seq![Seq::empty()]
    } else {
        let f = split_commas(s.drop_last());
        if s.last() == COMMA {
            f.push(Seq::empty())
        } else {
            f.update(f.len() - 1, f.last().push(s.last()))
        }
    }
}

pub open spec fn starts_rgb(n: Seq<u8>) -> bool {
    n.len() >= 3 && n[0] == 114 && n[1] == 103 && n[2] == 98
}

pub open spec fn is_hex(c: u8) -> bool {
    is_digit(c) || 97 <= c <= 102
}

pub open spec fn hex_val(c: u8) -> int {
    if is_digit(c) { c - 48 } else { c - 87 }
}

pub open spec fn hex_byte(n: Seq<u8>, i: int) -> int {
    hex_val(n[i]) * 16 + hex_val(n[i + 1])
}

pub open spec fn is_hex_color(n: Seq<u8>) -> bool {
    &&& n.len() >= 7
    &&& n[0] == HASH
    &&& forall|i: int| 1 <= i < 7 ==> is_hex(#[trigger] n[i])
}

/// The color that a normalized color text stands for.
pub open spec fn color_of_normalized(n: Seq<u8>) -> Color {
    let fields = split_commas(trimmed(n));
    if starts_rgb(n) && fields.len() >= 3 {
        let a = if fields.len() == 4 { alpha_of(fields[3]) } else { 255 };
        Color {
            r: premul(channel_of(fields[0]), a) as u8,
            g: premul(channel_of(fields[1]), a) as u8,
            b: premul(channel_of(fields[2]), a) as u8,
            a: a as u8,
        }
    } else if is_hex_color(n) {
        Color { r: hex_byte(n, 1) as u8, g: hex_byte(n, 3) as u8, b: hex_byte(n, 5) as u8, a: 255 }
    } else {
        black()
    }
}

/// The color that a CSS color text stands for: `rgb(r,g,b)`, `rgba(r,g,b,a)`
/// or `#rrggbb`, in any case and with any spaces; opaque black for anything
/// else.
pub open spec fn css_color(s: Seq<u8>) -> Color {
    color_of_normalized(normalize(s))
}


proof fn lemma_dot_index(f: Seq<u8>, i: int)
    requires
        0 <= i <= f.len(),
        forall|k: int| 0 <= k < i ==> f[k] != DOT,
        i == f.len() || f[i] == DOT,
    ensures
        dot_index(f) == i,
    decreases f.len(),
{
    if f.len() > 0 && i > 0 {
        lemma_dot_index(f.drop_first(), i - 1);
    }
}

proof fn lemma_digits_step(s: Seq<u8>, lo: int, j: int)
    requires
        0 <= lo <= j < s.len(),
    ensures
        digits_val(s.subrange(lo, j + 1)) == digits_val(s.subrange(lo, j)) * 10 + (s[j] - 48) as nat,
{
    assert(s.subrange(lo, j + 1).drop_last() =~= s.subrange(lo, j));
}

/// Whether `s[lo..hi]` is all digits.
fn digits_only(s: &[u8], lo: usize, hi: usize) -> (r: bool)
    requires
        lo <= hi <= s@.len(),
    ensures
        r == all_digits(s@.subrange(lo as int, hi as int)),
{
    let mut j: usize = lo;
    while j < hi
        invariant
            lo <= j <= hi <= s@.len(),
            forall|k: int| lo <= k < j ==> is_digit(s@[k]),
        decreases hi - j,
    {
        if !(48 <= s[j] && s[j] <= 57) {
            assert(s@.subrange(lo as int, hi as int)[j - lo] == s@[j as int]);
            return false;
        }
        j = j + 1;
    }
    assert forall|k: int| 0 <= k < hi - lo implies is_digit(#[trigger] s@.subrange(lo as int, hi as int)[k]) by {
        assert(s@.subrange(lo as int, hi as int)[k] == s@[lo + k]);
    }
    true
}

/// Where the point of `f` stands, when `f` is a plain decimal number.
fn number_dot(f: &[u8]) -> (r: Option<usize>)
    ensures
        r is Some <==> is_number(f@),
        r matches Some(d) ==> d == dot_index(f@) && d <= f@.len(),
{
    let n = f.len();
    let mut i: usize = 0;
    while i < n && f[i] != DOT
        invariant
            i <= n == f@.len(),
            forall|k: int| 0 <= k < i ==> f@[k] != DOT,
        decreases n - i,
    {
        i = i + 1;
    }
    proof {
        lemma_dot_index(f@, i as int);
    }
    let start: usize = if i < n { i + 1 } else { n };
    assert(int_part(f@) =~= f@.subrange(0, i as int));
    assert(frac_part(f@) =~= f@.subrange(start as int, n as int));
    if !digits_only(f, 0, i) || !digits_only(f, start, n) {
        return None;
    }
    if i == 0 && n - start == 0 {
        return None;
    }
    Some(i)
}

/// The value of the digits `s[lo..hi]`, saturated at 1000.
fn digits_saturated(s: &[u8], lo: usize, hi: usize) -> (r: u32)
    requires
        lo <= hi <= s@.len(),
        all_digits(s@.subrange(lo as int, hi as int)),
    ensures
        r == if digits_val(s@.subrange(lo as int, hi as int)) >= 1000 { 1000 } else {
            digits_val(s@.subrange(lo as int, hi as int))
        },
{
    let mut v: u32 = 0;
    let mut j: usize = lo;
    while j < hi
        invariant
            lo <= j <= hi <= s@.len(),
            all_digits(s@.subrange(lo as int, hi as int)),
            v == if digits_val(s@.subrange(lo as int, j as int)) >= 1000 { 1000 } else {
                digits_val(s@.subrange(lo as int, j as int))
            },
        decreases hi - j,
    {
        proof {
            lemma_digits_step(s@, lo as int, j as int);
            assert(is_digit(s@.subrange(lo as int, hi as int)[j - lo]));
        }
        let d = (s[j] - 48) as u32;
        if v < 1000 {
            v = v * 10 + d;
            if v > 1000 {
                v = 1000;
            }
        }
        j = j + 1;
    }
    v
}

/// An unsigned color channel field read as in `unsigned_channel_of`.
fn parse_unsigned_channel(f: &[u8]) -> (r: u8)
    ensures
        r == unsigned_channel_of(f@),
{
    match number_dot(f) {
        None => 0,
        Some(d) => {
            let n = f.len();
            assert(int_part(f@) =~= f@.subrange(0, d as int));
            let v = digits_saturated(f, 0, d);
            let up: u32 = if d < n && d + 1 < n && f[d + 1] >= 53 { 1 } else { 0 };
            proof {
                if d < n {
                    assert(frac_part(f@) =~= f@.skip(d + 1));
                    if d + 1 < n {
                        assert(frac_part(f@)[0] == f@[d + 1]);
                    }
                } else {
                    assert(frac_part(f@).len() == 0);
                }
            }
            if v + up > 255 { 255 } else { (v + up) as u8 }
        }
    }
}

/// An unsigned alpha field read as in `unsigned_alpha_of`.
fn parse_unsigned_alpha(f: &[u8]) -> (r: u8)
    ensures
        r == unsigned_alpha_of(f@),
{
    match number_dot(f) {
        None => 255,
        Some(d) => {
            let n = f.len();
            assert(int_part(f@) =~= f@.subrange(0, d as int));
            let v = digits_saturated(f, 0, d);
            if v >= 1 {
                return 255;
            }
            let lo: usize = if d < n { d + 1 } else { n };
            let hi: usize = if n - lo > ALPHA_DIGITS { lo + ALPHA_DIGITS } else { n };
            let ghost fr = frac_part(f@);
            assert(fr =~= f@.subrange(lo as int, n as int));
            proof {
                reveal_with_fuel(pow10, 10);
                lemma_pow10_mono(0, ALPHA_DIGITS as nat);
            }
            let mut num: u64 = 0;
            let mut den: u64 = 1;
            let mut j: usize = lo;
            while j < hi
                invariant
                    lo <= j <= hi <= n == f@.len(),
                    hi - lo <= ALPHA_DIGITS,
                    all_digits(fr),
                    fr =~= f@.subrange(lo as int, n as int),
                    num == digits_val(f@.subrange(lo as int, j as int)),
                    den == pow10((j - lo) as nat),
                    num < den,
                    den <= pow10(ALPHA_DIGITS as nat),
                    pow10(ALPHA_DIGITS as nat) == 1000000000,
                decreases hi - j,
            {
                proof {
                    lemma_digits_step(f@, lo as int, j as int);
                    assert(is_digit(fr[j - lo]));
                    assert(pow10((j + 1 - lo) as nat) == 10 * pow10((j - lo) as nat));
                    lemma_pow10_mono((j + 1 - lo) as nat, ALPHA_DIGITS as nat);
                }
                num = num * 10 + (f[j] - 48) as u64;
                den = den * 10;
                j = j + 1;
            }
            assert(fr.take((hi - lo) as int) =~= f@.subrange(lo as int, hi as int));
            proof {
                assert(num * 510 + den <= 1000000000 * 511) by (nonlinear_arith)
                    requires num < den, den <= 1000000000;
                assert((num * 510 + den) / (2 * den) <= 255) by (nonlinear_arith)
                    requires num < den, den >= 1;
            }
            ((num * 510 + den) / (2 * den)) as u8
        }
    }
}

proof fn lemma_pow10_mono(a: nat, b: nat)
    requires
        a <= b,
    ensures
        1 <= pow10(a) <= pow10(b),
    decreases b,
{
    if b > 0 {
        if a < b {
            lemma_pow10_mono(a, (b - 1) as nat);
        }
        lemma_pow10_mono(0, (b - 1) as nat);
    }
}

/// The field without its sign, as in `unsigned_part`, and whether it is
/// negative.
fn split_sign(f: &[u8]) -> (r: (Vec<u8>, bool))
    ensures
        r.0@ == unsigned_part(f@),
        r.1 == (has_sign(f@) && f@[0] == MINUS),
{
    let signed = f.len() > 0 && (f[0] == PLUS || f[0] == MINUS);
    let start: usize = if signed { 1 } else { 0 };
    let mut out: Vec<u8> = Vec::new();
    let mut i: usize = start;
    while i < f.len()
        invariant
            start <= i <= f@.len(),
            out@ == f@.subrange(start as int, i as int),
        decreases f@.len() - i,
    {
        out.push(f[i]);
        i = i + 1;
        assert(out@ =~= f@.subrange(start as int, i as int));
    }
    assert(out@ =~= unsigned_part(f@));
    (out, signed && f[0] == MINUS)
}

/// A color channel field read as in `channel_of`.
fn parse_channel(f: &[u8]) -> (r: u8)
    ensures
        r == channel_of(f@),
{
    let (body, minus) = split_sign(f);
    if minus && number_dot(body.as_slice()).is_some() {
        return 0;
    }
    parse_unsigned_channel(body.as_slice())
}

/// An alpha field read as in `alpha_of`.
fn parse_alpha(f: &[u8]) -> (r: u8)
    ensures
        r == alpha_of(f@),
{
    let (body, minus) = split_sign(f);
    if minus && number_dot(body.as_slice()).is_some() {
        return 0;
    }
    parse_unsigned_alpha(body.as_slice())
}

/// A straight channel scaled by an alpha, as in `premul`.
fn premultiply(c: u8, a: u8) -> (r: u8)
    ensures
        r == premul(c as int, a as int),
        r <= a,
{
    assert((c as int * a as int * 2 + 255) / 510 <= a) by (nonlinear_arith)
        requires c <= 255;
    assert((c as u32) * (a as u32) <= 65025) by (nonlinear_arith)
        requires c <= 255, a <= 255;
    let p = (c as u32) * (a as u32);
    ((p * 2 + 255) / 510) as u8
}


pub open spec fn views(v: Seq<Vec<u8>>) -> Seq<Seq<u8>> {
    v.map_values(|x: Vec<u8>| x@)
}

/// The text lowercased (ASCII) with its ASCII whitespace removed.
fn normalize_text(s: &[u8]) -> (r: Vec<u8>)
    ensures
        r@ == normalize(s@),
{
    let mut out: Vec<u8> = Vec::new();
    let mut i: usize = 0;
    while i < s.len()
        invariant
            i <= s@.len(),
            out@ == normalize(s@.take(i as int)),
        decreases s@.len() - i,
    {
        assert(s@.take(i + 1).drop_last() =~= s@.take(i as int));
        let c = s[i];
        if !(c == 9 || c == 10 || c == 12 || c == 13 || c == SPACE) {
            if 65 <= c && c <= 90 {
                out.push(c + 32);
            } else {
                out.push(c);
            }
        }
        i = i + 1;
    }
    assert(s@.take(s@.len() as int) =~= s@);
    out
}

fn is_trim_byte(c: u8) -> (r: bool)
    ensures
        r == is_trim_char(c),
{
    c == 114 || c == 103 || c == 98 || c == 97 || c == 40 || c == 41
}

/// The bounds of `trimmed(n)` within `n`.
fn trim_bounds(n: &[u8]) -> (r: (usize, usize))
    ensures
        r.0 == trim_start(n@, 0),
        r.1 == trim_end(n@, r.0 as int, n@.len() as int),
        r.0 <= r.1 <= n@.len(),
{
    let len = n.len();
    let mut lo: usize = 0;
    while lo < len && is_trim_byte(n[lo])
        invariant
            lo <= len == n@.len(),
            trim_start(n@, lo as int) == trim_start(n@, 0),
        decreases len - lo,
    {
        lo = lo + 1;
    }
    let mut hi: usize = len;
    while hi > lo && is_trim_byte(n[hi - 1])
        invariant
            lo <= hi <= len == n@.len(),
            trim_end(n@, lo as int, hi as int) == trim_end(n@, lo as int, len as int),
        decreases hi,
    {
        hi = hi - 1;
    }
    (lo, hi)
}

/// The comma-separated fields of `n[lo..hi]`.
fn split_fields(n: &[u8], lo: usize, hi: usize) -> (r: Vec<Vec<u8>>)
    requires
        lo <= hi <= n@.len(),
    ensures
        views(r@) == split_commas(n@.subrange(lo as int, hi as int)),
{
    let mut fields: Vec<Vec<u8>> = Vec::new();
    let mut cur: Vec<u8> = Vec::new();
    let mut j: usize = lo;
    assert(views(fields@).push(cur@) =~~= split_commas(n@.subrange(lo as int, lo as int)));
    while j < hi
        invariant
            lo <= j <= hi <= n@.len(),
            views(fields@).push(cur@) == split_commas(n@.subrange(lo as int, j as int)),
        decreases hi - j,
    {
        let ghost sub = n@.subrange(lo as int, j + 1);
        assert(sub.drop_last() =~= n@.subrange(lo as int, j as int));
        let c = n[j];
        if c == COMMA {
            let done = cur;
            fields.push(done);
            cur = Vec::new();
            assert(views(fields@).push(cur@) =~~= split_commas(sub));
        } else {
            let ghost prev = cur@;
            cur.push(c);
            assert(views(fields@).push(cur@) =~~= views(fields@).push(prev).update(
                views(fields@).len() as int,
                prev.push(c),
            ));
        }
        j = j + 1;
    }
    let last = cur;
    fields.push(last);
    assert(views(fields@) =~~= split_commas(n@.subrange(lo as int, hi as int)));
    fields
}

fn hex_digit(c: u8) -> (r: Option<u8>)
    ensures
        r is Some <==> is_hex(c),
        r matches Some(v) ==> v == hex_val(c),
{
    if 48 <= c && c <= 57 {
        Some(c - 48)
    } else if 97 <= c && c <= 102 {
        Some(c - 87)
    } else {
        None
    }
}

fn hex_pair(n: &[u8], i: usize) -> (r: Option<u8>)
    requires
        i + 1 < n@.len(),
    ensures
        r is Some <==> is_hex(n@[i as int]) && is_hex(n@[i + 1]),
        r matches Some(v) ==> v == hex_byte(n@, i as int),
{
    match (hex_digit(n[i]), hex_digit(n[i + 1])) {
        (Some(hi), Some(lo)) => Some(hi * 16 + lo),
        _ => None,
    }
}

/// Reads a color from the bytes of a CSS color text, as `css_color` says:
/// never fails, and falls back to opaque black.
pub fn parse_color_bytes(text: &[u8]) -> (r: Color)
    ensures
        r == css_color(text@),
        r.is_premultiplied(),
{
    let n = normalize_text(text);
    let ns = n.as_slice();
    let len = ns.len();
    if len >= 3 && ns[0] == 114 && ns[1] == 103 && ns[2] == 98 {
        let (lo, hi) = trim_bounds(ns);
        let fields = split_fields(ns, lo, hi);
        assert(views(fields@) == split_commas(trimmed(n@)));
        let count = fields.len();
        if count >= 3 {
            assert(fields@[0]@ == views(fields@)[0]);
            assert(fields@[1]@ == views(fields@)[1]);
            assert(fields@[2]@ == views(fields@)[2]);
            let a: u8 = if count == 4 {
                assert(fields@[3]@ == views(fields@)[3]);
                parse_alpha(fields[3].as_slice())
            } else {
                255
            };
            let r = premultiply(parse_channel(fields[0].as_slice()), a);
            let g = premultiply(parse_channel(fields[1].as_slice()), a);
            let b = premultiply(parse_channel(fields[2].as_slice()), a);
            return Color { r, g, b, a };
        }
    }
    if len >= 7 && ns[0] == HASH {
        match (hex_pair(ns, 1), hex_pair(ns, 3), hex_pair(ns, 5)) {
            (Some(r), Some(g), Some(b)) => {
                return Color { r, g, b, a: 255 };
            },
            _ => {
                assert(!is_hex_color(n@));
            },
        }
    }
    Color { r: 0, g: 0, b: 0, a: 255 }
}

/// Reads a color from a CSS color text, as `css_color` says of its bytes.
pub fn parse_css_color(color_str: &str) -> (r: Color)
    ensures
        r == css_color(color_str.spec_bytes()),
        r.is_premultiplied(),
{
    parse_color_bytes(color_str.as_bytes())
}

proof fn lemma_normalize_plain(s: Seq<u8>)
    requires
        forall|i: int| 0 <= i < s.len() ==> !is_space(#[trigger] s[i]) && !is_upper(s[i]),
    ensures
        normalize(s) == s,
    decreases s.len(),
{
    if s.len() > 0 {
        let t = s.drop_last();
        assert forall|i: int| 0 <= i < t.len() implies !is_space(#[trigger] t[i]) && !is_upper(t[i]) by {
            assert(t[i] == s[i]);
        }
        lemma_normalize_plain(t);
        assert(!is_space(s[s.len() - 1]) && !is_upper(s[s.len() - 1]));
        assert(t.push(s.last()) =~= s);
    }
}

/// A canonical `#rrggbb` text reads as the color of its three hex-decoded
/// bytes, fully opaque.
pub proof fn lemma_canonical_hex(s: Seq<u8>)
    requires
        s.len() == 7,
        s[0] == HASH,
        forall|i: int| 1 <= i < 7 ==> is_hex(#[trigger] s[i]),
    ensures
        css_color(s) == (Color { r: hex_byte(s, 1) as u8, g: hex_byte(s, 3) as u8, b: hex_byte(s, 5) as u8, a: 255 }),
{
    assert forall|i: int| 0 <= i < s.len() implies !is_space(#[trigger] s[i]) && !is_upper(s[i]) by {
        if i > 0 {
            assert(is_hex(s[i]));
        }
    }
    lemma_normalize_plain(s);
}

/// A text that, once normalized, is neither an `rgb` form nor a `#rrggbb`
/// form reads as opaque black: the parser never fails.
pub proof fn lemma_unparseable_is_black(s: Seq<u8>)
    requires
        !starts_rgb(normalize(s)),
        !is_hex_color(normalize(s)),
    ensures
        css_color(s) == black(),
{
}

} // verus!

