//! Character-level text handling: whitespace, splitting, trimming, lines
//! and decimal integers, each with the meaning that Rust's `str` methods give it.

use vstd::prelude::*;
use vstd::std_specs::iter::IteratorSpec;

verus! {

broadcast use vstd::string::group_string_axioms;

/// Unicode `White_Space`, the set that `char::is_whitespace` tests.
pub open spec fn is_ws(c: char) -> bool {
    let x = c as u32;
    (9 <= x && x <= 13) || x == 32 || x == 0x85 || x == 0xa0 || x == 0x1680
        || (0x2000 <= x && x <= 0x200a) || x == 0x2028 || x == 0x2029 || x == 0x202f
        || x == 0x205f || x == 0x3000
}

pub fn is_whitespace(c: char) -> (b: bool)
    ensures
        b == is_ws(c),
{
    let x = c as u32;
    (9 <= x && x <= 13) || x == 32 || x == 0x85 || x == 0xa0 || x == 0x1680
        || (0x2000 <= x && x <= 0x200a) || x == 0x2028 || x == 0x2029 || x == 0x202f
        || x == 0x205f || x == 0x3000
}

/// The characters of `s`, in order.
pub fn chars_of(s: &str) -> (v: Vec<char>)
    ensures
        v@ == s@,
{
    let mut v: Vec<char> = Vec::new();
    let mut it = s.chars();
    loop
        invariant
            v@ + it.remaining() == s@,
            it.decrease() is Some,
        ensures
            v@ == s@,
        decreases it.decrease()->0,
    {
        match it.next() {
            Some(c) => {
                v.push(c);
            },
            None => {
                assert(v@ + it.remaining() =~= v@);
                assert(v@ == s@);
                break;
            },
        }
    }
    v
}

/// `String::push`: appends one character.
pub assume_specification[ std::string::String::push ](string: &mut String, ch: char)
    ensures
        final(string)@ == old(string)@.push(ch),
;

/// The characters `v[from..to]` as an owned string.
pub fn string_from(v: &Vec<char>, from: usize, to: usize) -> (r: String)
    requires
        from <= to <= v.len(),
    ensures
        r@ == v@.subrange(from as int, to as int),
{
    let mut r = String::new();
    let mut i = from;
    while i < to
        invariant
            from <= i <= to <= v.len(),
            r@ == v@.subrange(from as int, i as int),
        decreases to - i,
    {
        r.push(v[i]);
        assert(r@ =~= v@.subrange(from as int, i + 1));
        i = i + 1;
    }
    r
}

/// The characters `v[from..to]` as a vector.
pub fn chars_between(v: &Vec<char>, from: usize, to: usize) -> (r: Vec<char>)
    requires
        from <= to <= v.len(),
    ensures
        r@ == v@.subrange(from as int, to as int),
{
    let mut r: Vec<char> = Vec::new();
    let mut i = from;
    while i < to
        invariant
            from <= i <= to <= v.len(),
            r@ == v@.subrange(from as int, i as int),
        decreases to - i,
    {
        r.push(v[i]);
        assert(r@ =~= v@.subrange(from as int, i + 1));
        i = i + 1;
    }
    r
}

/// Whether `v[from..to]` equals `pat`.
pub fn chars_eq_at(v: &Vec<char>, from: usize, to: usize, pat: &Vec<char>) -> (b: bool)
    requires
        from <= to <= v.len(),
    ensures
        b == (v@.subrange(from as int, to as int) == pat@),
{
    if to - from != pat.len() {
        return false;
    }
    let mut k: usize = 0;
    while k < pat.len()
        invariant
            from <= to <= v.len(),
            to - from == pat.len(),
            k <= pat.len(),
            forall|j: int| 0 <= j < k ==> v@[from + j] == pat@[j],
        decreases pat.len() - k,
    {
        if v[from + k] != pat[k] {
            assert(v@.subrange(from as int, to as int)[k as int] != pat@[k as int]);
            return false;
        }
        k = k + 1;
    }
    assert(v@.subrange(from as int, to as int) =~= pat@);
    true
}

// ---------------------------------------------------------------------------
// Splitting on a separator character (`str::split` with a `char` pattern).
// ---------------------------------------------------------------------------

/// The pieces of `s` between occurrences of `sep`; there is always one more
/// piece than there are separators, and pieces may be empty.
pub open spec fn split_on(s: Seq<char>, sep: char) -> Seq<Seq<char>>
    decreases s.len(),
{
    if s.len() == 0 {
        seq![Seq::<char>::empty()]
    } else {
        let prev = split_on(s.drop_last(), sep);
        if s.last() == sep {
            prev.push(Seq::<char>::empty())
        } else {
            prev.update(prev.len() - 1, prev.last().push(s.last()))
        }
    }
}

pub proof fn lemma_split_on_nonempty(s: Seq<char>, sep: char)
    ensures
        split_on(s, sep).len() >= 1,
    decreases s.len(),
{
    if s.len() > 0 {
        lemma_split_on_nonempty(s.drop_last(), sep);
    }
}

/// The substrings of `v` that a list of spans selects.
pub open spec fn spans_view(v: Seq<char>, spans: Seq<(usize, usize)>) -> Seq<Seq<char>> {
    Seq::new(spans.len(), |k: int| v.subrange(spans[k].0 as int, spans[k].1 as int))
}

pub open spec fn spans_in_bounds(len: nat, spans: Seq<(usize, usize)>) -> bool {
    forall|k: int| 0 <= k < spans.len() ==> #[trigger] spans[k].0 <= spans[k].1 <= len
}

pub proof fn lemma_spans_push(len: nat, spans: Seq<(usize, usize)>, x: (usize, usize))
    requires
        spans_in_bounds(len, spans),
        x.0 <= x.1 <= len,
    ensures
        spans_in_bounds(len, spans.push(x)),
{
    assert forall|k: int| 0 <= k < spans.push(x).len() implies #[trigger] spans.push(x)[k].0
        <= spans.push(x)[k].1 <= len by {
        if k < spans.len() {
            assert(spans.push(x)[k] == spans[k]);
        }
    }
}

/// Start and end positions of the pieces of `v` between occurrences of `sep`.
pub fn split_spans(v: &Vec<char>, sep: char) -> (spans: Vec<(usize, usize)>)
    ensures
        spans_in_bounds(v@.len(), spans@),
        spans_view(v@, spans@) == split_on(v@, sep),
{
    let mut spans: Vec<(usize, usize)> = Vec::new();
    let mut start: usize = 0;
    let mut i: usize = 0;
    assert(v@.take(0) =~= Seq::<char>::empty());
    assert(spans_view(v@, spans@).push(v@.subrange(0, 0)) =~= split_on(v@.take(0), sep));
    while i < v.len()
        invariant
            start <= i <= v.len(),
            spans_in_bounds(v@.len(), spans@),
            spans_view(v@, spans@).push(v@.subrange(start as int, i as int)) == split_on(
                v@.take(i as int),
                sep,
            ),
        decreases v.len() - i,
    {
        let ghost prev = split_on(v@.take(i as int), sep);
        let c = v[i];
        assert(v@.take(i + 1).drop_last() =~= v@.take(i as int));
        assert(v@.take(i + 1).last() == c);
        if c == sep {
            let ghost old_view = spans_view(v@, spans@);
            proof {
                lemma_spans_push(v@.len(), spans@, (start, i));
            }
            spans.push((start, i));
            assert(spans_view(v@, spans@) =~= old_view.push(v@.subrange(start as int, i as int)));
            start = i + 1;
            i = i + 1;
            assert(v@.subrange(start as int, i as int) =~= Seq::<char>::empty());
            assert(spans_view(v@, spans@).push(v@.subrange(start as int, i as int)) =~= prev.push(
                Seq::<char>::empty(),
            ));
        } else {
            i = i + 1;
            assert(v@.subrange(start as int, i as int) =~= v@.subrange(start as int, i - 1).push(
                c,
            ));
            assert(spans_view(v@, spans@).push(v@.subrange(start as int, i as int)) =~= prev.update(
                prev.len() - 1,
                prev.last().push(c),
            ));
        }
    }
    proof {
        lemma_spans_push(v@.len(), spans@, (start, i));
    }
    spans.push((start, i));
    assert(v@.take(v@.len() as int) =~= v@);
    assert(spans_view(v@, spans@) =~= split_on(v@, sep));
    spans
}

// ---------------------------------------------------------------------------
// Whitespace-separated tokens (`str::split_whitespace`).
// ---------------------------------------------------------------------------

/// The maximal runs of non-whitespace characters of `s`, in order.
pub open spec fn ws_tokens(s: Seq<char>) -> Seq<Seq<char>>
    decreases s.len(),
{
    if s.len() == 0 {
        Seq::empty()
    } else {
        let prev = ws_tokens(s.drop_last());
        let c = s.last();
        if is_ws(c) {
            prev
        } else if s.len() >= 2 && !is_ws(s[s.len() - 2]) {
            prev.update(prev.len() - 1, prev.last().push(c))
        } else {
            prev.push(seq![c])
        }
    }
}

/// Start and end positions of the whitespace-separated tokens of `v`.
pub fn ws_spans(v: &Vec<char>) -> (spans: Vec<(usize, usize)>)
    ensures
        spans_in_bounds(v@.len(), spans@),
        spans_view(v@, spans@) == ws_tokens(v@),
{
    let mut spans: Vec<(usize, usize)> = Vec::new();
    let mut start: usize = 0;
    let mut in_tok = false;
    let mut i: usize = 0;
    assert(v@.take(0) =~= Seq::<char>::empty());
    assert(spans_view(v@, spans@) =~= ws_tokens(v@.take(0)));
    while i < v.len()
        invariant
            i <= v.len(),
            spans_in_bounds(v@.len(), spans@),
            in_tok == (i > 0 && !is_ws(v@[i - 1])),
            in_tok ==> start < i,
            !in_tok ==> spans_view(v@, spans@) == ws_tokens(v@.take(i as int)),
            in_tok ==> spans_view(v@, spans@).push(v@.subrange(start as int, i as int))
                == ws_tokens(v@.take(i as int)),
        decreases v.len() - i,
    {
        let ghost prev = ws_tokens(v@.take(i as int));
        let ghost old_view = spans_view(v@, spans@);
        let c = v[i];
        assert(v@.take(i + 1).drop_last() =~= v@.take(i as int));
        assert(v@.take(i + 1).last() == c);
        if is_whitespace(c) {
            if in_tok {
                proof {
                    lemma_spans_push(v@.len(), spans@, (start, i));
                }
                spans.push((start, i));
                assert(spans_view(v@, spans@) =~= old_view.push(
                    v@.subrange(start as int, i as int),
                ));
            }
            in_tok = false;
            i = i + 1;
        } else {
            if in_tok {
                assert(v@.take(i + 1)[i - 1] == v@[i - 1]);
                assert(v@.subrange(start as int, i + 1) =~= v@.subrange(start as int, i as int).push(
                    c,
                ));
                assert(old_view.push(v@.subrange(start as int, i + 1)) =~= prev.update(
                    prev.len() - 1,
                    prev.last().push(c),
                ));
            } else {
                start = i;
                if i > 0 {
                    assert(v@.take(i + 1)[i - 1] == v@[i - 1]);
                }
                assert(v@.subrange(start as int, i + 1) =~= seq![c]);
                assert(old_view.push(v@.subrange(start as int, i + 1)) =~= prev.push(seq![c]));
            }
            in_tok = true;
            i = i + 1;
        }
    }
    assert(v@.take(v@.len() as int) =~= v@);
    if in_tok {
        let ghost old_view = spans_view(v@, spans@);
        proof {
            lemma_spans_push(v@.len(), spans@, (start, i));
        }
        spans.push((start, i));
        assert(spans_view(v@, spans@) =~= old_view.push(v@.subrange(start as int, i as int)));
    }
    spans
}

// ---------------------------------------------------------------------------
// Trimming (`str::trim`).
// ---------------------------------------------------------------------------

/// Number of leading whitespace characters.
pub open spec fn lead_ws(s: Seq<char>) -> nat
    decreases s.len(),
{
    if s.len() > 0 && is_ws(s[0]) {
        1 + lead_ws(s.skip(1))
    } else {
        0
    }
}

/// Number of trailing whitespace characters.
pub open spec fn trail_ws(s: Seq<char>) -> nat
    decreases s.len(),
{
    if s.len() > 0 && is_ws(s.last()) {
        1 + trail_ws(s.drop_last())
    } else {
        0
    }
}

/// `s` without its leading and trailing whitespace.
pub open spec fn trim(s: Seq<char>) -> Seq<char> {
    let t = s.skip(lead_ws(s) as int);
    t.take(t.len() - trail_ws(t))
}

proof fn lemma_lead_ws(s: Seq<char>, n: int)
    requires
        0 <= n <= s.len(),
        forall|k: int| 0 <= k < n ==> is_ws(#[trigger] s[k]),
        n == s.len() || !is_ws(s[n]),
    ensures
        lead_ws(s) == n,
    decreases n,
{
    if n > 0 {
        lemma_lead_ws(s.skip(1), n - 1);
    }
}

proof fn lemma_trail_ws(s: Seq<char>, n: int)
    requires
        0 <= n <= s.len(),
        forall|k: int| s.len() - n <= k < s.len() ==> is_ws(#[trigger] s[k]),
        n == s.len() || !is_ws(s[s.len() - n - 1]),
    ensures
        trail_ws(s) == n,
    decreases n,
{
    if n > 0 {
        lemma_trail_ws(s.drop_last(), n - 1);
    }
}

/// Start and end of the trimmed part of `v[from..to]`.
pub fn trim_span(v: &Vec<char>, from: usize, to: usize) -> (r: (usize, usize))
    requires
        from <= to <= v.len(),
    ensures
        from <= r.0 <= r.1 <= to,
        v@.subrange(r.0 as int, r.1 as int) == trim(v@.subrange(from as int, to as int)),
{
    let ghost s = v@.subrange(from as int, to as int);
    let mut a = from;
    while a < to && is_whitespace(v[a])
        invariant
            from <= a <= to <= v.len(),
            s == v@.subrange(from as int, to as int),
            forall|k: int| from <= k < a ==> is_ws(#[trigger] v@[k]),
        decreases to - a,
    {
        a = a + 1;
    }
    proof {
        assert forall|k: int| 0 <= k < a - from implies is_ws(#[trigger] s[k]) by {
            assert(s[k] == v@[from + k]);
        }
        lemma_lead_ws(s, a - from);
    }
    let mut b = to;
    while b > a && is_whitespace(v[b - 1])
        invariant
            from <= a <= b <= to <= v.len(),
            forall|k: int| b <= k < to ==> is_ws(#[trigger] v@[k]),
        decreases b - a,
    {
        b = b - 1;
    }
    proof {
        let t = s.skip(a - from);
        assert(t =~= v@.subrange(a as int, to as int));
        assert forall|k: int| t.len() - (to - b) <= k < t.len() implies is_ws(#[trigger] t[k]) by {
            assert(t[k] == v@[a + k]);
        }
        lemma_trail_ws(t, to - b);
        assert(t.take(t.len() - trail_ws(t)) =~= v@.subrange(a as int, b as int));
    }
    (a, b)
}

// ---------------------------------------------------------------------------
// Lines (`str::lines`).
// ---------------------------------------------------------------------------

/// A line without the carriage return that preceded its line feed.
pub open spec fn strip_cr(l: Seq<char>) -> Seq<char> {
    if l.len() > 0 && l.last() == '\r' {
        l.drop_last()
    } else {
        l
    }
}

/// The lines of `s`: split at `\n`, a `\r` before a `\n` removed, and no
/// final empty line after a trailing `\n`.
pub open spec fn text_lines(s: Seq<char>) -> Seq<Seq<char>> {
    let p = split_on(s, '\n');
    let n = p.len() - 1;
    Seq::new(n as nat, |k: int| strip_cr(p[k])) + if p[n].len() > 0 {
        seq![p[n]]
    } else {
        Seq::<Seq<char>>::empty()
    }
}

/// Start and end positions of the lines of `v`.
pub fn line_spans(v: &Vec<char>) -> (lines: Vec<(usize, usize)>)
    ensures
        spans_in_bounds(v@.len(), lines@),
        spans_view(v@, lines@) == text_lines(v@),
{
    let pieces = split_spans(v, '\n');
    proof {
        lemma_split_on_nonempty(v@, '\n');
    }
    let ghost p = split_on(v@, '\n');
    let n = pieces.len() - 1;
    let mut lines: Vec<(usize, usize)> = Vec::new();
    let mut k: usize = 0;
    while k < n
        invariant
            n == pieces.len() - 1,
            pieces.len() == p.len(),
            spans_in_bounds(v@.len(), pieces@),
            spans_view(v@, pieces@) == p,
            k <= n,
            spans_in_bounds(v@.len(), lines@),
            spans_view(v@, lines@) == Seq::new(k as nat, |j: int| strip_cr(p[j])),
        decreases n - k,
    {
        let (a, b) = pieces[k];
        assert(p[k as int] == v@.subrange(a as int, b as int));
        let ghost old_view = spans_view(v@, lines@);
        assert(pieces@[k as int].0 <= pieces@[k as int].1 <= v@.len());
        if b > a && v[b - 1] == '\r' {
            proof {
                lemma_spans_push(v@.len(), lines@, (a, (b - 1) as usize));
            }
            lines.push((a, b - 1));
            assert(v@.subrange(a as int, b - 1) =~= strip_cr(p[k as int]));
        } else {
            proof {
                lemma_spans_push(v@.len(), lines@, (a, b));
            }
            lines.push((a, b));
        }
        assert(spans_view(v@, lines@) =~= old_view.push(strip_cr(p[k as int])));
        assert(Seq::new((k + 1) as nat, |j: int| strip_cr(p[j])) =~= Seq::new(
            k as nat,
            |j: int| strip_cr(p[j]),
        ).push(strip_cr(p[k as int])));
        k = k + 1;
    }
    let (a, b) = pieces[n];
    assert(p[n as int] == v@.subrange(a as int, b as int));
    let ghost before = spans_view(v@, lines@);
    assert(pieces@[n as int].0 <= pieces@[n as int].1 <= v@.len());
    if b > a {
        proof {
            lemma_spans_push(v@.len(), lines@, (a, b));
        }
        lines.push((a, b));
        assert(spans_view(v@, lines@) =~= before.push(p[n as int]));
    }
    assert(spans_view(v@, lines@) =~= text_lines(v@));
    lines
}

// ---------------------------------------------------------------------------
// Decimal integers (`str::parse` for `u64`, `usize` and `i32`).
// ---------------------------------------------------------------------------

pub open spec fn is_digit(c: char) -> bool {
    48 <= c as u32 <= 57
}

pub open spec fn digit_val(c: char) -> nat {
    (c as u32 - 48) as nat
}

/// The value of a string of decimal digits.
pub open spec fn digits_value(s: Seq<char>) -> nat
    decreases s.len(),
{
    if s.len() == 0 {
        0
    } else {
        digits_value(s.drop_last()) * 10 + digit_val(s.last())
    }
}

pub open spec fn all_digits(s: Seq<char>) -> bool {
    forall|i: int| 0 <= i < s.len() ==> is_digit(#[trigger] s[i])
}

/// The value of `s` if it is a non-empty string of digits whose value is at most `max`.
pub open spec fn decimal_within(s: Seq<char>, max: nat) -> Option<nat> {
    if s.len() > 0 && all_digits(s) && digits_value(s) <= max {
        Some(digits_value(s))
    } else {
        None
    }
}

/// `s` without one leading `+`.
pub open spec fn unsigned_body(s: Seq<char>) -> Seq<char> {
    if s.len() > 0 && s[0] == '+' {
        s.skip(1)
    } else {
        s
    }
}

/// What `str::parse::<u64>` gives: `Some` exactly for an optional `+`
/// followed by at least one digit, with a value that fits.
pub open spec fn parse_u64_spec(s: Seq<char>) -> Option<u64> {
    match decimal_within(unsigned_body(s), u64::MAX as nat) {
        Some(n) => Some(n as u64),
        None => None,
    }
}

/// What `str::parse::<usize>` gives.
pub open spec fn parse_usize_spec(s: Seq<char>) -> Option<usize> {
    match decimal_within(unsigned_body(s), usize::MAX as nat) {
        Some(n) => Some(n as usize),
        None => None,
    }
}

/// What `str::parse::<i32>` gives: an optional sign, then at least one digit,
/// with a value in `i32`'s range.
pub open spec fn parse_i32_spec(s: Seq<char>) -> Option<i32> {
    if s.len() > 0 && s[0] == '-' {
        match decimal_within(s.skip(1), 0x8000_0000) {
            Some(n) => Some((0 - n) as i32),
            None => None,
        }
    } else {
        match decimal_within(unsigned_body(s), 0x7fff_ffff) {
            Some(n) => Some(n as i32),
            None => None,
        }
    }
}

proof fn lemma_digits_prefix_le(s: Seq<char>, j: int)
    requires
        0 <= j <= s.len(),
    ensures
        digits_value(s.take(j)) <= digits_value(s),
    decreases s.len(),
{
    if j < s.len() {
        assert(s.drop_last().take(j) =~= s.take(j));
        lemma_digits_prefix_le(s.drop_last(), j);
    } else {
        assert(s.take(j) =~= s);
    }
}

/// The value of the digits `v[from..]` when that is `decimal_within(.., max)`.
fn parse_digits(v: &Vec<char>, from: usize, max: u64) -> (r: Option<u64>)
    requires
        from <= v.len(),
        max >= 9,
    ensures
        r is Some <==> decimal_within(v@.skip(from as int), max as nat) is Some,
        r matches Some(n) ==> n == decimal_within(v@.skip(from as int), max as nat)->0,
{
    let ghost s = v@.skip(from as int);
    if from == v.len() {
        return None;
    }
    let mut acc: u64 = 0;
    let mut i = from;
    assert(s.take(0) =~= Seq::<char>::empty());
    while i < v.len()
        invariant
            from <= i <= v.len(),
            s == v@.skip(from as int),
            acc <= max,
            max >= 9,
            all_digits(s.take(i - from)),
            acc == digits_value(s.take(i - from)),
        decreases v.len() - i,
    {
        let c = v[i];
        let x = c as u32;
        assert(s[i - from] == c);
        if x < 48 || x > 57 {
            assert(!all_digits(s));
            return None;
        }
        let d = (x - 48) as u64;
        assert(s.take(i - from + 1).drop_last() =~= s.take(i - from));
        assert(s.take(i - from + 1).last() == c);
        if acc > (max - d) / 10 {
            proof {
                if all_digits(s) {
                    lemma_digits_prefix_le(s, i - from + 1);
                }
            }
            return None;
        }
        acc = acc * 10 + d;
        i = i + 1;
    }
    assert(s.take(i - from) =~= s);
    Some(acc)
}

/// `str::parse::<u64>` on the characters `v`.
pub fn parse_u64(v: &Vec<char>) -> (r: Option<u64>)
    ensures
        r == parse_u64_spec(v@),
{
    let from: usize = if v.len() > 0 && v[0] == '+' { 1 } else { 0 };
    assert(unsigned_body(v@) =~= v@.skip(from as int));
    parse_digits(v, from, u64::MAX)
}

/// `str::parse::<usize>` on the characters `v`.
pub fn parse_usize(v: &Vec<char>) -> (r: Option<usize>)
    ensures
        r == parse_usize_spec(v@),
{
    let from: usize = if v.len() > 0 && v[0] == '+' { 1 } else { 0 };
    assert(unsigned_body(v@) =~= v@.skip(from as int));
    match parse_digits(v, from, usize::MAX as u64) {
        Some(n) => Some(n as usize),
        None => None,
    }
}

/// `str::parse::<i32>` on the characters `v`.
pub fn parse_i32(v: &Vec<char>) -> (r: Option<i32>)
    ensures
        r == parse_i32_spec(v@),
{
    if v.len() > 0 && v[0] == '-' {
        match parse_digits(v, 1, 0x8000_0000) {
            Some(n) => Some((0 - (n as i64)) as i32),
            None => None,
        }
    } else {
        let from: usize = if v.len() > 0 && v[0] == '+' { 1 } else { 0 };
        assert(unsigned_body(v@) =~= v@.skip(from as int));
        match parse_digits(v, from, 0x7fff_ffff) {
            Some(n) => Some(n as i32),
            None => None,
        }
    }
}

// ---------------------------------------------------------------------------
// Owned pieces.
// ---------------------------------------------------------------------------

/// The whitespace-separated tokens of `v`, each as its own character vector.
pub fn tokens_of(v: &Vec<char>) -> (toks: Vec<Vec<char>>)
    ensures
        toks.len() == ws_tokens(v@).len(),
        forall|k: int| 0 <= k < toks.len() ==> #[trigger] toks@[k]@ == ws_tokens(v@)[k],
{
    let spans = ws_spans(v);
    pieces_from_spans(v, &spans)
}

/// The lines of `v`, each as its own character vector.
pub fn lines_of(v: &Vec<char>) -> (lines: Vec<Vec<char>>)
    ensures
        lines.len() == text_lines(v@).len(),
        forall|k: int| 0 <= k < lines.len() ==> #[trigger] lines@[k]@ == text_lines(v@)[k],
{
    let spans = line_spans(v);
    pieces_from_spans(v, &spans)
}

/// The pieces of `v` between occurrences of `sep`, each as its own character vector.
pub fn pieces_of(v: &Vec<char>, sep: char) -> (pieces: Vec<Vec<char>>)
    ensures
        pieces.len() == split_on(v@, sep).len(),
        forall|k: int| 0 <= k < pieces.len() ==> #[trigger] pieces@[k]@ == split_on(v@, sep)[k],
{
    let spans = split_spans(v, sep);
    pieces_from_spans(v, &spans)
}

fn pieces_from_spans(v: &Vec<char>, spans: &Vec<(usize, usize)>) -> (out: Vec<Vec<char>>)
    requires
        spans_in_bounds(v@.len(), spans@),
    ensures
        out.len() == spans.len(),
        forall|k: int| 0 <= k < out.len() ==> #[trigger] out@[k]@ == spans_view(v@, spans@)[k],
{
    let mut out: Vec<Vec<char>> = Vec::new();
    let mut k: usize = 0;
    while k < spans.len()
        invariant
            k <= spans.len(),
            spans_in_bounds(v@.len(), spans@),
            out.len() == k,
            forall|j: int| 0 <= j < k ==> #[trigger] out@[j]@ == spans_view(v@, spans@)[j],
        decreases spans.len() - k,
    {
        let (a, b) = spans[k];
        assert(spans@[k as int].0 <= spans@[k as int].1 <= v@.len());
        let piece = chars_between(v, a, b);
        out.push(piece);
        k = k + 1;
    }
    out
}

/// Whether `s` begins with `p`.
pub open spec fn starts_with(s: Seq<char>, p: Seq<char>) -> bool {
    s.len() >= p.len() && s.take(p.len() as int) == p
}

pub fn has_prefix(v: &Vec<char>, p: &Vec<char>) -> (b: bool)
    ensures
        b == starts_with(v@, p@),
{
    if v.len() < p.len() {
        return false;
    }
    let b = chars_eq_at(v, 0, p.len(), p);
    assert(v@.subrange(0, p@.len() as int) =~= v@.take(p@.len() as int));
    b
}

/// Whether `c` occurs in `v`.
pub fn contains_char(v: &Vec<char>, c: char) -> (b: bool)
    ensures
        b == v@.contains(c),
{
    let mut i: usize = 0;
    while i < v.len()
        invariant
            i <= v.len(),
            forall|j: int| 0 <= j < i ==> v@[j] != c,
        decreases v.len() - i,
    {
        if v[i] == c {
            assert(v@[i as int] == c);
            return true;
        }
        i = i + 1;
    }
    false
}

/// Whether the two character vectors are equal.
pub fn chars_equal(a: &Vec<char>, b: &Vec<char>) -> (r: bool)
    ensures
        r == (a@ == b@),
{
    let r = chars_eq_at(a, 0, a.len(), b);
    assert(a@.subrange(0, a@.len() as int) =~= a@);
    r
}

/// Number of leading non-whitespace characters.
pub open spec fn nonws_prefix_len(s: Seq<char>) -> nat
    decreases s.len(),
{
    if s.len() > 0 && !is_ws(s[0]) {
        1 + nonws_prefix_len(s.skip(1))
    } else {
        0
    }
}

/// `str::split_once(char::is_whitespace)`, with the whole string and an
/// empty rest when there is no whitespace.
pub open spec fn split_tag(s: Seq<char>) -> (Seq<char>, Seq<char>) {
    let n = nonws_prefix_len(s);
    if n < s.len() {
        (s.take(n as int), s.skip(n as int + 1))
    } else {
        (s, Seq::empty())
    }
}

proof fn lemma_nonws_prefix_len(s: Seq<char>, n: int)
    requires
        0 <= n <= s.len(),
        forall|k: int| 0 <= k < n ==> !is_ws(#[trigger] s[k]),
        n == s.len() || is_ws(s[n]),
    ensures
        nonws_prefix_len(s) == n,
    decreases n,
{
    if n > 0 {
        lemma_nonws_prefix_len(s.skip(1), n - 1);
    }
}

/// The tag of `v` and the rest after the first whitespace character.
pub fn split_tag_of(v: &Vec<char>) -> (r: (Vec<char>, Vec<char>))
    ensures
        (r.0@, r.1@) == split_tag(v@),
{
    let mut i: usize = 0;
    while i < v.len() && !is_whitespace(v[i])
        invariant
            i <= v.len(),
            forall|k: int| 0 <= k < i ==> !is_ws(#[trigger] v@[k]),
        decreases v.len() - i,
    {
        i = i + 1;
    }
    proof {
        lemma_nonws_prefix_len(v@, i as int);
    }
    if i < v.len() {
        let tag = chars_between(v, 0, i);
        let rest = chars_between(v, i + 1, v.len());
        assert(tag@ =~= v@.take(i as int));
        assert(rest@ =~= v@.skip(i + 1));
        (tag, rest)
    } else {
        let tag = chars_between(v, 0, v.len());
        assert(tag@ =~= v@);
        (tag, Vec::new())
    }
}

/// The trimmed characters of `v`.
pub fn trimmed(v: &Vec<char>) -> (r: Vec<char>)
    ensures
        r@ == trim(v@),
{
    let (a, b) = trim_span(v, 0, v.len());
    assert(v@.subrange(0, v@.len() as int) =~= v@);
    chars_between(v, a, b)
}

/// `str::trim`, as an owned string.
pub fn trim_str(s: &str) -> (r: String)
    ensures
        r@ == trim(s@),
{
    let v = chars_of(s);
    let (a, b) = trim_span(&v, 0, v.len());
    assert(v@.subrange(0, v@.len() as int) =~= v@);
    string_from(&v, a, b)
}

/// Appends the characters of `t` to `s`.
pub fn append_str(s: &mut String, t: &str)
    ensures
        final(s)@ == old(s)@ + t@,
{
    let v = chars_of(t);
    let mut i: usize = 0;
    while i < v.len()
        invariant
            i <= v.len(),
            v@ == t@,
            s@ == old(s)@ + v@.take(i as int),
        decreases v.len() - i,
    {
        s.push(v[i]);
        assert(v@.take(i + 1) =~= v@.take(i as int).push(v@[i as int]));
        i = i + 1;
    }
    assert(v@.take(v@.len() as int) =~= v@);
}

} // verus!
