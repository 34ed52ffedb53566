use vstd::prelude::*;
use crate::digits::{all_digits, decimal, digit_char, lemma_digit_char, digit_value, digits_val, is_digit, lemma_decimal, lemma_digits_val_prefix, push_decimal};
use crate::json::{Scalar, ScalarView};

verus! {

pub const NANOS_PER_SEC: u32 = 1_000_000_000;

/// A non-negative span of time: whole seconds and the nanoseconds past them.
#[derive(Clone, Copy, Debug, PartialEq, Eq)]
pub struct Span {
    pub secs: u64,
    pub nanos: u32,
}

impl Span {
    pub open spec fn wf(self) -> bool {
        self.nanos < NANOS_PER_SEC
    }

    /// The span cut down to whole seconds.
    pub open spec fn whole(self) -> Span {
        Span { secs: self.secs, nanos: 0 }
    }
}

/// The compact text of `n` whole seconds: `XhYmZs`, leading zero parts left out.
pub open spec fn compact_text(n: nat) -> Seq<char> {
    let h = n / 3600;
    let m = (n % 3600) / 60;
    let s = n % 60;
    if h > 0 {
        decimal(h) + seq!['h'] + decimal(m) + seq!['m'] + decimal(s) + seq!['s']
    } else if m > 0 {
        decimal(m) + seq!['m'] + decimal(s) + seq!['s']
    } else {
        decimal(s) + seq!['s']
    }
}

/// Encodes a span in compact form; the nanoseconds are dropped.
pub fn serialize_duration(dur: &Span) -> (r: String)
    ensures
        r@ == compact_text(dur.secs as nat),
{
    let secs = dur.secs;
    let h = secs / 3600;
    let m = (secs % 3600) / 60;
    let s = secs % 60;
    let mut out = String::new();
    proof {
        reveal_strlit("h");
        reveal_strlit("m");
        reveal_strlit("s");
    }
    if h > 0 {
        push_decimal(&mut out, h);
        out.append("h");
    }
    if h > 0 || m > 0 {
        push_decimal(&mut out, m);
        out.append("m");
    }
    push_decimal(&mut out, s);
    out.append("s");
    proof {
        assert(out@ =~= compact_text(secs as nat));
    }
    out
}

pub open spec fn ten_to(k: nat) -> nat
    decreases k,
{
    if k == 0 {
        1
    } else {
        10 * ten_to((k - 1) as nat)
    }
}

proof fn lemma_ten_to_nine(k: nat)
    requires
        k <= 9,
    ensures
        ten_to(k) <= 1_000_000_000,
        k == 9 ==> ten_to(k) == 1_000_000_000,
{
    reveal_with_fuel(ten_to, 10);
    if k == 0 {
    } else if k == 1 {
    } else if k == 2 {
    } else if k == 3 {
    } else if k == 4 {
    } else if k == 5 {
    } else if k == 6 {
    } else if k == 7 {
    } else if k == 8 {
    } else {
    }
}

proof fn lemma_digits_val_below(s: Seq<char>)
    requires
        all_digits(s),
    ensures
        digits_val(s) < ten_to(s.len()),
    decreases s.len(),
{
    if s.len() > 0 {
        let p = s.drop_last();
        assert(all_digits(p));
        lemma_digits_val_below(p);
        assert(is_digit(s[s.len() - 1]));
        let a = digits_val(p);
        let d = digit_value(s.last());
        let t = ten_to(p.len());
        assert(a * 10 + d < 10 * t) by (nonlinear_arith)
            requires
                a < t,
                d < 10,
        ;
    }
}

/// The nine digits of nanoseconds that a fraction's digits begin with, padded with zeros.
pub open spec fn nine_digits(f: Seq<char>) -> Seq<char> {
    Seq::new(9, |i: int| if i < f.len() { f[i] } else { '0' })
}

/// `t` is a number of seconds written as digits, a point and more digits,
/// the point standing at `p`.
pub open spec fn fraction_at(t: Seq<char>, p: int) -> bool {
    &&& 0 < p < t.len() - 1
    &&& t[p] == '.'
    &&& all_digits(t.subrange(0, p))
    &&& all_digits(t.subrange(p + 1, t.len() as int))
}

/// The span of `secs` seconds and `nanos` nanoseconds, if the seconds fit.
pub open spec fn span_of(secs: nat, nanos: nat) -> Option<Span> {
    if secs <= u64::MAX {
        Some(Span { secs: secs as u64, nanos: nanos as u32 })
    } else {
        None
    }
}

/// The span that a number of seconds in decimal stands for, cut below the
/// nanosecond: digits, optionally followed by a point and more digits.
pub open spec fn number_span(t: Seq<char>) -> Option<Span> {
    if t.len() > 0 && all_digits(t) {
        span_of(digits_val(t), 0)
    } else if exists|p: int| fraction_at(t, p) {
        let p = choose|p: int| fraction_at(t, p);
        span_of(
            digits_val(t.subrange(0, p)),
            digits_val(nine_digits(t.subrange(p + 1, t.len() as int))),
        )
    } else {
        None
    }
}

fn is_digit_char(c: char) -> (r: bool)
    ensures
        r == is_digit(c),
{
    '0' <= c && c <= '9'
}

/// Reads the digits of `t` from `from` to `to` as a number, if it fits in a `u64`.
fn read_digits(t: &str, from: usize, to: usize) -> (r: Option<u64>)
    requires
        from <= to <= t@.len(),
        all_digits(t@.subrange(from as int, to as int)),
    ensures
        r matches Some(v) ==> v == digits_val(t@.subrange(from as int, to as int)),
        r is None ==> digits_val(t@.subrange(from as int, to as int)) > u64::MAX,
{
    let ghost s = t@.subrange(from as int, to as int);
    let mut v: u64 = 0;
    let mut i: usize = from;
    assert(s.subrange(0, 0) =~= Seq::<char>::empty());
    while i < to
        invariant
            from <= i <= to <= t@.len(),
            s == t@.subrange(from as int, to as int),
            all_digits(s),
            v == digits_val(s.subrange(0, i - from)),
        decreases to - i,
    {
        let c = t.get_char(i);
        assert(c == s[i - from]);
        let d = (c as u32 - 48) as u64;
        assert(s.subrange(0, i - from + 1).drop_last() =~= s.subrange(0, i - from));
        if v > (u64::MAX - d) / 10 {
            proof {
                lemma_digits_val_prefix(s, i - from + 1, s.len() as int);
                assert(s.subrange(0, s.len() as int) =~= s);
            }
            return None;
        }
        v = v * 10 + d;
        i += 1;
    }
    assert(s.subrange(0, to - from) =~= s);
    Some(v)
}

/// The nanoseconds that the fraction digits of `t` from `from` on stand for.
fn read_nanos(t: &str, from: usize) -> (r: u32)
    requires
        from <= t@.len(),
        all_digits(t@.subrange(from as int, t@.len() as int)),
    ensures
        r == digits_val(nine_digits(t@.subrange(from as int, t@.len() as int))),
        r < NANOS_PER_SEC,
{
    let ghost f = t@.subrange(from as int, t@.len() as int);
    let ghost n = nine_digits(f);
    let len = t.unicode_len();
    let mut v: u64 = 0;
    let mut k: usize = 0;
    assert(n.subrange(0, 0) =~= Seq::<char>::empty());
    while k < 9
        invariant
            k <= 9,
            len == t@.len(),
            from <= len,
            f == t@.subrange(from as int, t@.len() as int),
            n == nine_digits(f),
            all_digits(f),
            v == digits_val(n.subrange(0, k as int)),
            v < ten_to(k as nat),
        decreases 9 - k,
    {
        let c = if k < len - from { t.get_char(from + k) } else { '0' };
        assert(c == n[k as int]);
        assert(is_digit(c));
        let d = (c as u32 - 48) as u64;
        assert(n.subrange(0, k + 1).drop_last() =~= n.subrange(0, k as int));
        proof {
            lemma_ten_to_nine(k as nat);
            lemma_ten_to_nine((k + 1) as nat);
            let t0 = ten_to(k as nat);
            assert(v * 10 + d < 10 * t0) by (nonlinear_arith)
                requires
                    v < t0,
                    d < 10,
            ;
        }
        v = v * 10 + d;
        k += 1;
    }
    proof {
        lemma_ten_to_nine(9);
        assert(n.subrange(0, 9) =~= n);
    }
    v as u32
}

/// Reads a number of seconds written in decimal, with an optional fraction.
pub fn parse_seconds(t: &str) -> (r: Option<Span>)
    ensures
        r == number_span(t@),
        r matches Some(d) ==> d.wf(),
{
    let len = t.unicode_len();
    let mut p: usize = 0;
    while p < len && t.get_char(p) != '.'
        invariant
            p <= len,
            len == t@.len(),
            forall|k: int| 0 <= k < p ==> t@[k] != '.',
        decreases len - p,
    {
        p += 1;
    }
    let mut i: usize = 0;
    while i < p
        invariant
            i <= p <= len,
            len == t@.len(),
            forall|k: int| 0 <= k < p ==> t@[k] != '.',
            p < len ==> t@[p as int] == '.',
            all_digits(t@.subrange(0, i as int)),
        decreases p - i,
    {
        if !is_digit_char(t.get_char(i)) {
            proof {
                assert(!all_digits(t@)) by {
                    assert(!is_digit(t@[i as int]));
                }
                assert forall|q: int| !fraction_at(t@, q) by {
                    if fraction_at(t@, q) {
                        assert(t@[q] == '.');
                        if q > i {
                            assert(t@.subrange(0, q)[i as int] == t@[i as int]);
                        }
                    }
                }
            }
            return None;
        }
        i += 1;
    }
    if p == len {
        assert(t@.subrange(0, len as int) =~= t@);
        if len == 0 {
            return None;
        }
        assert forall|q: int| !fraction_at(t@, q) by {
            if fraction_at(t@, q) {
                assert(t@[q] == '.');
            }
        }
        return match read_digits(t, 0, len) {
            Some(v) => Some(Span { secs: v, nanos: 0 }),
            None => None,
        };
    }
    assert(!all_digits(t@)) by {
        assert(t@[p as int] == '.');
    }
    let mut j: usize = p + 1;
    assert(t@.subrange(p + 1, p + 1) =~= Seq::<char>::empty());
    while j < len
        invariant
            p < j <= len,
            len == t@.len(),
            forall|k: int| 0 <= k < p ==> t@[k] != '.',
            t@[p as int] == '.',
            all_digits(t@.subrange(0, p as int)),
            all_digits(t@.subrange(p + 1, j as int)),
        decreases len - j,
    {
        if !is_digit_char(t.get_char(j)) {
            proof {
                assert forall|q: int| !fraction_at(t@, q) by {
                    if fraction_at(t@, q) {
                        assert(t@[q] == '.');
                        if q > p {
                            assert(t@.subrange(0, q)[p as int] == t@[p as int]);
                        }
                        assert(q == p);
                        assert(t@.subrange(q + 1, t@.len() as int)[j - q - 1] == t@[j as int]);
                    }
                }
            }
            return None;
        }
        assert(t@.subrange(p + 1, j + 1).drop_last() =~= t@.subrange(p + 1, j as int));
        j += 1;
    }
    if p == 0 || p + 1 == len {
        assert forall|q: int| !fraction_at(t@, q) by {
            if fraction_at(t@, q) {
                assert(t@[q] == '.');
                if q > p {
                    assert(t@.subrange(0, q)[p as int] == t@[p as int]);
                }
            }
        }
        return None;
    }
    proof {
        assert(fraction_at(t@, p as int));
        assert forall|q: int| fraction_at(t@, q) implies q == p by {
            assert(t@[q] == '.');
            if q > p {
                assert(t@.subrange(0, q)[p as int] == t@[p as int]);
            }
        }
    }
    let nanos = read_nanos(t, p + 1);
    match read_digits(t, 0, p) {
        Some(v) => Some(Span { secs: v, nanos }),
        None => None,
    }
}

pub open spec fn is_ascii_letter(c: char) -> bool {
    (65 <= (c as u32) && (c as u32) <= 90) || (97 <= (c as u32) && (c as u32) <= 122)
}

/// Every character is a digit, `h`, `m` or `s`, and no `m` is directly followed
/// by `s`: a text that can name whole hours, minutes and seconds only.
pub open spec fn whole_units_only(s: Seq<char>) -> bool {
    &&& forall|i: int|
        0 <= i < s.len() ==> is_digit(#[trigger] s[i]) || s[i] == 'h' || s[i] == 'm' || s[i]
            == 's'
    &&& forall|i: int| 0 <= i < s.len() - 1 && #[trigger] s[i] == 'm' ==> s[i + 1] != 's'
}

/// Splits a text at its ASCII letters and points, and reads the digits of each
/// piece as one number: the sum of the finished pieces, and the piece still open.
pub open spec fn piece_tally(s: Seq<char>) -> (nat, nat)
    decreases s.len(),
{
    if s.len() == 0 {
        (0, 0)
    } else {
        let (t, c) = piece_tally(s.drop_last());
        let ch = s.last();
        if is_digit(ch) {
            (t, c * 10 + digit_value(ch))
        } else if is_ascii_letter(ch) || ch == '.' {
            (t + c, 0)
        } else {
            (t, c)
        }
    }
}

/// The sum of the numbers that a duration text is made of, taking the digits
/// between two letters or points as one number.
pub open spec fn number_budget(s: Seq<char>) -> nat {
    piece_tally(s).0 + piece_tally(s).1
}

/// A bound on `number_budget` under which every unit, up to a year of
/// 31_557_600 seconds, keeps the total below `u64::MAX` seconds.
pub const BUDGET: u64 = 584_000_000_000;

/// The duration texts handed to humantime: those whose total cannot reach
/// `u64::MAX` seconds.
pub open spec fn admitted(s: Seq<char>) -> bool {
    whole_units_only(s) || number_budget(s) <= BUDGET
}

/// What humantime makes of a duration text.
pub uninterp spec fn humantime_span(s: Seq<char>) -> Option<Span>;

/// Relies on humantime::parse_duration: the result depends on the text alone; a
/// text of hour, minute and second parts (`1h1m1s`, `1m30s`, `5s`) comes out as
/// the sum of its parts; an empty text, or one that starts with a letter, is
/// refused. Texts whose total could reach `u64::MAX` seconds are left out: there
/// the nanoseconds may carry into seconds that overflow, and humantime panics.
#[verifier::external_body]
fn parse_compact(s: &str) -> (r: Option<Span>)
    requires
        admitted(s@),
    ensures
        r == humantime_span(s@),
        forall|n: nat|
            n <= u64::MAX && s@ == #[trigger] compact_text(n) ==> r == Some(
                (Span { secs: n as u64, nanos: 0 }),
            ),
        s@.len() == 0 || is_ascii_letter(s@[0]) ==> r is None,
{
    humantime::parse_duration(s).ok().map(|d| Span { secs: d.as_secs(), nanos: d.subsec_nanos() })
}

proof fn lemma_piece_tally_prefix(s: Seq<char>, j: int, k: int)
    requires
        0 <= j <= k <= s.len(),
    ensures
        number_budget(s.subrange(0, j)) <= number_budget(s.subrange(0, k)),
    decreases k - j,
{
    if j < k {
        lemma_piece_tally_prefix(s, j, k - 1);
        assert(s.subrange(0, k).drop_last() =~= s.subrange(0, k - 1));
    }
}

/// Tells whether a duration text is handed to humantime.
pub fn is_admitted(s: &str) -> (r: bool)
    ensures
        r == admitted(s@),
{
    let len = s.unicode_len();
    let mut whole = true;
    let mut t: u64 = 0;
    let mut c: u64 = 0;
    let mut i: usize = 0;
    let mut within = true;
    assert(s@.subrange(0, 0) =~= Seq::<char>::empty());
    while i < len
        invariant
            i <= len,
            len == s@.len(),
            whole == whole_units_only(s@.subrange(0, i as int)),
            within ==> t == piece_tally(s@.subrange(0, i as int)).0 && c == piece_tally(s@.subrange(0, i as int)).1 && t + c <= BUDGET,
            !within ==> number_budget(s@.subrange(0, i as int)) > BUDGET,
        decreases len - i,
    {
        let ch = s.get_char(i);
        let ghost pre = s@.subrange(0, i as int);
        let ghost next = s@.subrange(0, i + 1);
        assert(next.drop_last() =~= pre);
        assert(next.last() == ch);
        let ok_char = ('0' <= ch && ch <= '9') || ch == 'h' || ch == 'm' || ch == 's';
        let ms = i > 0 && ch == 's' && s.get_char(i - 1) == 'm';
        proof {
            if whole && ok_char && !ms {
                assert forall|k: int| 0 <= k < next.len() implies is_digit(#[trigger] next[k])
                    || next[k] == 'h' || next[k] == 'm' || next[k] == 's' by {
                    if k < i {
                        assert(next[k] == pre[k]);
                    }
                }
                assert forall|k: int| 0 <= k < next.len() - 1 && #[trigger] next[k] == 'm' implies next[k + 1]
                    != 's' by {
                    assert(next[k] == pre[k]);
                    if k + 1 < i {
                        assert(next[k + 1] == pre[k + 1]);
                    }
                }
            }
            if whole && !(ok_char && !ms) {
                if !ok_char {
                    assert(!(is_digit(next[i as int]) || next[i as int] == 'h' || next[i as int] == 'm'
                        || next[i as int] == 's'));
                } else {
                    assert(next[i - 1] == 'm' && next[i as int] == 's');
                }
            }
            if !whole {
                let k = choose|k: int| !(0 <= k < pre.len() ==> is_digit(#[trigger] pre[k]) || pre[k] == 'h' || pre[k] == 'm' || pre[k] == 's')
                    || !(0 <= k < pre.len() - 1 && #[trigger] pre[k] == 'm' ==> pre[k + 1] != 's');
                assert(next[k] == pre[k]);
                if k + 1 < pre.len() {
                    assert(next[k + 1] == pre[k + 1]);
                }
            }
        }
        whole = whole && ok_char && !ms;
        if within {
            if '0' <= ch && ch <= '9' {
                c = c * 10 + (ch as u32 - 48) as u64;
            } else if ('a' <= ch && ch <= 'z') || ('A' <= ch && ch <= 'Z') || ch == '.' {
                t = t + c;
                c = 0;
            }
            if t + c > BUDGET {
                within = false;
            }
        } else {
            proof {
                lemma_piece_tally_prefix(s@, i as int, i + 1);
            }
        }
        i += 1;
    }
    assert(s@.subrange(0, len as int) =~= s@);
    whole || within
}

/// The span that a duration text stands for: a text in compact form is read as
/// such; any other admitted text as humantime reads it.
pub open spec fn text_span(s: Seq<char>) -> Option<Span> {
    if exists|n: nat| n <= u64::MAX && compact_text(n) == s {
        let n = choose|n: nat| n <= u64::MAX && compact_text(n) == s;
        Some(Span { secs: n as u64, nanos: 0 })
    } else if admitted(s) {
        humantime_span(s)
    } else {
        None
    }
}

/// The span that a duration field stands for: a number of seconds, or a text.
pub open spec fn flex_span(v: ScalarView) -> Option<Span> {
    match v {
        ScalarView::Number(t) => number_span(t),
        ScalarView::Text(s) => text_span(s),
        _ => None,
    }
}

/// Decodes a duration field, given either as seconds or as text.
pub fn parse_duration_flex(v: &Scalar) -> (r: Option<Span>)
    ensures
        r == flex_span(v@),
        v@ is Text && admitted(v@->Text_0) ==> r == humantime_span(v@->Text_0),
        v@ is Text && !admitted(v@->Text_0) ==> r is None,
{
    match v {
        Scalar::Number(t) => parse_seconds(t.as_str()),
        Scalar::Text(s) => {
            if !is_admitted(s.as_str()) {
                proof {
                    if exists|n: nat| n <= u64::MAX && compact_text(n) == s@ {
                        let n = choose|n: nat| n <= u64::MAX && compact_text(n) == s@;
                        lemma_compact_whole_units(n);
                    }
                }
                return None;
            }
            let r = parse_compact(s.as_str());
            proof {
                if exists|n: nat| n <= u64::MAX && compact_text(n) == s@ {
                    let n = choose|n: nat| n <= u64::MAX && compact_text(n) == s@;
                    assert(s@ == compact_text(n));
                }
            }
            r
        },
        _ => None,
    }
}

/// Joining two texts of whole units, the second starting with a digit, keeps
/// the rules of whole units.
proof fn lemma_whole_units_join(p: Seq<char>, q: Seq<char>)
    requires
        whole_units_only(p),
        whole_units_only(q),
        q.len() > 0 ==> is_digit(q[0]),
    ensures
        whole_units_only(p + q),
{
    let s = p + q;
    assert forall|i: int| 0 <= i < s.len() implies is_digit(#[trigger] s[i]) || s[i] == 'h' || s[i]
        == 'm' || s[i] == 's' by {
        if i < p.len() {
            assert(s[i] == p[i]);
        } else {
            assert(s[i] == q[i - p.len()]);
        }
    }
    assert forall|i: int| 0 <= i < s.len() - 1 && #[trigger] s[i] == 'm' implies s[i + 1] != 's' by {
        if i + 1 < p.len() {
            assert(s[i] == p[i] && s[i + 1] == p[i + 1]);
        } else if i + 1 == p.len() {
            assert(s[i + 1] == q[0]);
        } else {
            assert(s[i] == q[i - p.len()] && s[i + 1] == q[i + 1 - p.len()]);
        }
    }
}

proof fn lemma_decimal_unit(n: nat, c: char)
    requires
        c == 'h' || c == 'm' || c == 's',
    ensures
        whole_units_only(decimal(n) + seq![c]),
        is_digit((decimal(n) + seq![c])[0]),
        (decimal(n) + seq![c]).last() == c,
{
    lemma_decimal(n);
    let d = decimal(n);
    let s = d + seq![c];
    assert forall|i: int| 0 <= i < s.len() implies is_digit(#[trigger] s[i]) || s[i] == 'h' || s[i]
        == 'm' || s[i] == 's' by {
        if i < d.len() {
            assert(s[i] == d[i]);
        }
    }
    assert forall|i: int| 0 <= i < s.len() - 1 && #[trigger] s[i] == 'm' implies s[i + 1] != 's' by {
        assert(s[i] == d[i]);
        assert(is_digit(d[i]));
    }
    assert(s[0] == d[0]);
}

proof fn lemma_compact_whole_units(n: nat)
    ensures
        whole_units_only(compact_text(n)),
{
    let h = n / 3600;
    let m = (n % 3600) / 60;
    let sec = n % 60;
    lemma_decimal_unit(h, 'h');
    lemma_decimal_unit(m, 'm');
    lemma_decimal_unit(sec, 's');
    let a = decimal(h) + seq!['h'];
    let b = decimal(m) + seq!['m'];
    let c = decimal(sec) + seq!['s'];
    if h > 0 {
        lemma_whole_units_join(b, c);
        lemma_whole_units_join(a, b + c);
        assert(compact_text(n) =~= a + (b + c));
    } else if m > 0 {
        lemma_whole_units_join(b, c);
        assert(compact_text(n) =~= b + c);
    } else {
        assert(compact_text(n) =~= c);
    }
}

/// Reads hour, minute and second parts back: the seconds counted so far and the
/// number still waiting for its unit.
spec fn tally(s: Seq<char>) -> (nat, nat)
    decreases s.len(),
{
    if s.len() == 0 {
        (0, 0)
    } else {
        let (t, p) = tally(s.drop_last());
        let c = s.last();
        if is_digit(c) {
            (t, p * 10 + digit_value(c))
        } else if c == 'h' {
            (t + p * 3600, 0)
        } else if c == 'm' {
            (t + p * 60, 0)
        } else if c == 's' {
            (t + p, 0)
        } else {
            (t, p)
        }
    }
}

proof fn lemma_tally_decimal(pre: Seq<char>, n: nat)
    requires
        tally(pre).1 == 0,
    ensures
        tally(pre + decimal(n)) == (tally(pre).0, n),
    decreases n,
{
    lemma_digit_char(n % 10);
    let s = pre + decimal(n);
    if n < 10 {
        assert(s.drop_last() =~= pre);
    } else {
        lemma_tally_decimal(pre, n / 10);
        assert(s.drop_last() =~= pre + decimal(n / 10));
        assert(s.last() == digit_char(n % 10));
        assert((n / 10) * 10 + n % 10 == n);
    }
}

proof fn lemma_tally_unit(pre: Seq<char>, c: char)
    requires
        c == 'h' || c == 'm' || c == 's',
    ensures
        tally(pre + seq![c]).1 == 0,
        tally(pre + seq![c]).0 == tally(pre).0 + tally(pre).1 * (if c == 'h' {
            3600int
        } else if c == 'm' {
            60int
        } else {
            1int
        }),
{
    assert((pre + seq![c]).drop_last() =~= pre);
    assert((c as u32) == 104 || (c as u32) == 109 || (c as u32) == 115);
}

proof fn lemma_tally_hms(h: nat, m: nat, sec: nat)
    ensures
        tally(decimal(h) + seq!['h'] + decimal(m) + seq!['m'] + decimal(sec) + seq!['s']).0 == h
            * 3600 + m * 60 + sec,
{
    let e = Seq::<char>::empty();
    assert(tally(e) == (0nat, 0nat));
    lemma_tally_decimal(e, h);
    assert(e + decimal(h) =~= decimal(h));
    let a = decimal(h) + seq!['h'];
    lemma_tally_unit(decimal(h), 'h');
    lemma_tally_decimal(a, m);
    let b = a + decimal(m) + seq!['m'];
    lemma_tally_unit(a + decimal(m), 'm');
    lemma_tally_decimal(b, sec);
    lemma_tally_unit(b + decimal(sec), 's');
}

proof fn lemma_tally_ms(m: nat, sec: nat)
    ensures
        tally(decimal(m) + seq!['m'] + decimal(sec) + seq!['s']).0 == m * 60 + sec,
{
    let e = Seq::<char>::empty();
    assert(tally(e) == (0nat, 0nat));
    lemma_tally_decimal(e, m);
    assert(e + decimal(m) =~= decimal(m));
    let b = decimal(m) + seq!['m'];
    lemma_tally_unit(decimal(m), 'm');
    lemma_tally_decimal(b, sec);
    lemma_tally_unit(b + decimal(sec), 's');
}

proof fn lemma_tally_s(sec: nat)
    ensures
        tally(decimal(sec) + seq!['s']).0 == sec,
{
    let e = Seq::<char>::empty();
    assert(tally(e) == (0nat, 0nat));
    lemma_tally_decimal(e, sec);
    assert(e + decimal(sec) =~= decimal(sec));
    lemma_tally_unit(decimal(sec), 's');
}

proof fn lemma_tally_compact(n: nat)
    ensures
        tally(compact_text(n)).0 == n,
{
    let h = n / 3600;
    let m = (n % 3600) / 60;
    let sec = n % 60;
    assert(h * 3600 + m * 60 + sec == n);
    if h > 0 {
        lemma_tally_hms(h, m, sec);
    } else if m > 0 {
        lemma_tally_ms(m, sec);
    } else {
        lemma_tally_s(sec);
    }
}

/// Decoding the compact text that a span encodes to gives the span back, cut
/// to whole seconds.
pub proof fn lemma_round_trip(d: Span)
    ensures
        flex_span(ScalarView::Text(compact_text(d.secs as nat))) == Some(d.whole()),
{
    let s = compact_text(d.secs as nat);
    assert(d.secs as nat <= u64::MAX && compact_text(d.secs as nat) == s);
    let k = choose|k: nat| k <= u64::MAX && compact_text(k) == s;
    lemma_tally_compact(k);
    lemma_tally_compact(d.secs as nat);
}

/// A whole number of seconds decodes to the same span as its compact text.
pub proof fn lemma_number_agrees_with_text(t: Seq<char>)
    requires
        number_span(t) matches Some(d) && d.nanos == 0,
    ensures
        flex_span(ScalarView::Number(t)) == flex_span(
            ScalarView::Text(compact_text(number_span(t)->0.secs as nat)),
        ),
{
    lemma_round_trip(number_span(t)->0);
}

} // verus!
