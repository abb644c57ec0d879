//! Decisions of the one-shot device discovery: which thermal zones to read,
//! how many CPU cores there are, and the per-core table printed by `lscpu`.

use vstd::prelude::*;

use crate::text::{
    append_str, chars_eq_at, chars_of, is_digit, is_ws, lines_of, parse_usize, parse_usize_spec, starts_with,
    string_from, text_lines, tokens_of, trim, trimmed, ws_tokens,
};

verus! {

broadcast use {vstd::seq_lib::to_multiset_insert, vstd::seq_lib::to_multiset_build};

// ---------------------------------------------------------------------------
// The `lscpu -e=cpu,modelname,minmhz,maxmhz` table.
// ---------------------------------------------------------------------------

/// One core of the `lscpu` table. The frequencies are the numbers as printed
/// (MHz); a frequency that is no number reads as zero.
pub struct LscpuCore {
    /// `cpu` followed by the core number as printed.
    pub name: String,
    pub model_name: String,
    pub min_mhz: String,
    pub max_mhz: String,
}

/// The mathematical content of an [`LscpuCore`].
pub struct CoreRow {
    pub name: Seq<char>,
    pub model_name: Seq<char>,
    pub min_mhz: Seq<char>,
    pub max_mhz: Seq<char>,
}

impl View for LscpuCore {
    type V = CoreRow;

    open spec fn view(&self) -> CoreRow {
        CoreRow {
            name: self.name@,
            model_name: self.model_name@,
            min_mhz: self.min_mhz@,
            max_mhz: self.max_mhz@,
        }
    }
}

pub open spec fn rows_view(cores: Seq<LscpuCore>) -> Seq<CoreRow> {
    Seq::new(cores.len(), |i: int| cores[i]@)
}

/// Words joined by single spaces.
pub open spec fn join_words(ts: Seq<Seq<char>>) -> Seq<char>
    decreases ts.len(),
{
    if ts.len() == 0 {
        Seq::empty()
    } else if ts.len() == 1 {
        ts[0]
    } else {
        join_words(ts.drop_last()) + seq![' '] + ts.last()
    }
}

/// A row of the table: the core number, the model name (possibly several
/// words), the minimum and the maximum frequency; lines with fewer than four
/// tokens are no row.
pub open spec fn lscpu_row(line: Seq<char>) -> Option<CoreRow> {
    let t = ws_tokens(line);
    if t.len() >= 4 {
        Some(
            CoreRow {
                name: seq!['c', 'p', 'u'] + t[0],
                model_name: join_words(t.subrange(1, t.len() - 2)),
                min_mhz: t[t.len() - 2],
                max_mhz: t[t.len() - 1],
            },
        )
    } else {
        None
    }
}

/// The rows of a sequence of lines, in order.
pub open spec fn lscpu_rows(lines: Seq<Seq<char>>) -> Seq<CoreRow>
    decreases lines.len(),
{
    if lines.len() == 0 {
        Seq::empty()
    } else {
        let prev = lscpu_rows(lines.drop_last());
        match lscpu_row(lines.last()) {
            Some(r) => prev.push(r),
            None => prev,
        }
    }
}

/// The lines after the header line.
pub open spec fn data_lines(raw: Seq<char>) -> Seq<Seq<char>> {
    let ls = text_lines(raw);
    if ls.len() == 0 {
        ls
    } else {
        ls.skip(1)
    }
}

/// The number of a core: its name after `cpu`, as a number, or 0.
pub open spec fn core_number(r: CoreRow) -> nat {
    match parse_usize_spec(r.name.skip(3)) {
        Some(n) => n as nat,
        None => 0,
    }
}

pub open spec fn sorted_by_core(rows: Seq<CoreRow>) -> bool {
    forall|i: int, j: int|
        0 <= i < j < rows.len() ==> core_number(#[trigger] rows[i]) <= core_number(
            #[trigger] rows[j],
        )
}

/// A word: non-empty, without whitespace.
pub open spec fn is_word(w: Seq<char>) -> bool {
    w.len() > 0 && forall|j: int| 0 <= j < w.len() ==> !is_ws(#[trigger] w[j])
}

proof fn lemma_ws_tokens_are_words(s: Seq<char>)
    ensures
        forall|i: int| 0 <= i < ws_tokens(s).len() ==> is_word(#[trigger] ws_tokens(s)[i]),
    decreases s.len(),
{
    if s.len() > 0 {
        let prev = ws_tokens(s.drop_last());
        lemma_ws_tokens_are_words(s.drop_last());
        let c = s.last();
        let cur = ws_tokens(s);
        if !is_ws(c) {
            if s.len() >= 2 && !is_ws(s[s.len() - 2]) {
                lemma_ws_tokens_nonempty_end(s.drop_last());
                let w = prev.last().push(c);
                assert(is_word(prev[prev.len() - 1]));
                assert forall|j: int| 0 <= j < w.len() implies !is_ws(#[trigger] w[j]) by {
                    if j < w.len() - 1 {
                        assert(w[j] == prev[prev.len() - 1][j]);
                    }
                }
                assert forall|i: int| 0 <= i < cur.len() implies is_word(#[trigger] cur[i]) by {
                    if i < cur.len() - 1 {
                        assert(cur[i] == prev[i]);
                    }
                }
            } else {
                assert(is_word(seq![c]));
                assert forall|i: int| 0 <= i < cur.len() implies is_word(#[trigger] cur[i]) by {
                    if i < cur.len() - 1 {
                        assert(cur[i] == prev[i]);
                    }
                }
            }
        }
    }
}

/// A line whose last character is no whitespace has at least one token.
proof fn lemma_ws_tokens_nonempty_end(s: Seq<char>)
    requires
        s.len() > 0,
        !is_ws(s.last()),
    ensures
        ws_tokens(s).len() > 0,
    decreases s.len(),
{
    if s.len() >= 2 && !is_ws(s[s.len() - 2]) {
        lemma_ws_tokens_nonempty_end(s.drop_last());
    }
}

proof fn lemma_ws_tokens_append_word(a: Seq<char>, w: Seq<char>)
    requires
        is_word(w),
        a.len() == 0 || is_ws(a.last()),
    ensures
        ws_tokens(a + w) == ws_tokens(a).push(w),
    decreases w.len(),
{
    let s = a + w;
    assert(s.last() == w.last());
    if w.len() == 1 {
        assert(s.drop_last() =~= a);
        assert(seq![w.last()] =~= w);
        if s.len() >= 2 {
            assert(s[s.len() - 2] == a.last());
        }
    } else {
        let w0 = w.drop_last();
        assert(is_word(w0)) by {
            assert forall|j: int| 0 <= j < w0.len() implies !is_ws(#[trigger] w0[j]) by {
                assert(w0[j] == w[j]);
            }
        }
        assert(s.drop_last() =~= a + w0);
        lemma_ws_tokens_append_word(a, w0);
        assert(s[s.len() - 2] == w[w.len() - 2]);
        assert(w0.push(w.last()) =~= w);
        assert(ws_tokens(a).push(w0).update(ws_tokens(a).len() as int, w) =~= ws_tokens(a).push(w));
    }
}

/// Words joined by single spaces split back into the same words.
pub proof fn lemma_join_words_tokens(ts: Seq<Seq<char>>)
    requires
        ts.len() > 0,
        forall|i: int| 0 <= i < ts.len() ==> is_word(#[trigger] ts[i]),
    ensures
        ws_tokens(join_words(ts)) == ts,
    decreases ts.len(),
{
    if ts.len() == 1 {
        assert(Seq::<char>::empty() + ts[0] =~= ts[0]);
        lemma_ws_tokens_append_word(Seq::empty(), ts[0]);
        assert(Seq::<Seq<char>>::empty().push(ts[0]) =~= ts);
    } else {
        let init = ts.drop_last();
        assert forall|i: int| 0 <= i < init.len() implies is_word(#[trigger] init[i]) by {
            assert(init[i] == ts[i]);
        }
        lemma_join_words_tokens(init);
        let a = join_words(init) + seq![' '];
        assert(is_ws(' '));
        assert(a.drop_last() =~= join_words(init));
        assert(ws_tokens(a) == ws_tokens(join_words(init)));
        assert(is_word(ts[ts.len() - 1]));
        lemma_ws_tokens_append_word(a, ts.last());
        assert(init.push(ts.last()) =~= ts);
    }
}

/// A line of the table with at least four tokens is a row, and fewer make
/// none. Its core is named `cpu` and its first token, its minimum and
/// maximum frequencies are its last two tokens, and the model name is the
/// tokens in between, joined by single spaces: the core number, the words of
/// the model name and the two frequencies give back every token of the line
/// once, in order.
pub proof fn lemma_row_tokens(line: Seq<char>)
    ensures
        ws_tokens(line).len() < 4 ==> lscpu_row(line) is None,
        ws_tokens(line).len() >= 4 ==> (lscpu_row(line) matches Some(r) && {
            let t = ws_tokens(line);
            &&& r.name == seq!['c', 'p', 'u'] + t[0]
            &&& r.min_mhz == t[t.len() - 2]
            &&& r.max_mhz == t[t.len() - 1]
            &&& seq![r.name.skip(3)] + ws_tokens(r.model_name) + seq![r.min_mhz, r.max_mhz] == t
        }),
{
    let t = ws_tokens(line);
    if t.len() >= 4 {
        lemma_ws_tokens_are_words(line);
        let mid = t.subrange(1, t.len() - 2);
        assert forall|i: int| 0 <= i < mid.len() implies is_word(#[trigger] mid[i]) by {
            assert(mid[i] == t[i + 1]);
        }
        lemma_join_words_tokens(mid);
        let r = lscpu_row(line)->0;
        assert(r.name.skip(3) =~= t[0]);
        assert(seq![r.name.skip(3)] + mid + seq![r.min_mhz, r.max_mhz] =~= t);
    }
}

/// Words `ts[from..to]` joined by single spaces.
fn join_range(ts: &Vec<Vec<char>>, from: usize, to: usize) -> (r: String)
    requires
        from < to <= ts.len(),
    ensures
        r@ == join_words(Seq::new(ts.len() as nat, |i: int| ts@[i]@).subrange(from as int, to as int)),
{
    let ghost tv = Seq::new(ts.len() as nat, |i: int| ts@[i]@);
    let first = &ts[from];
    let mut r = string_from(first, 0, first.len());
    assert(first@.subrange(0, first@.len() as int) =~= first@);
    assert(tv.subrange(from as int, from + 1) =~= seq![first@]);
    let mut k = from + 1;
    while k < to
        invariant
            from < k <= to <= ts.len(),
            tv == Seq::new(ts.len() as nat, |i: int| ts@[i]@),
            r@ == join_words(tv.subrange(from as int, k as int)),
        decreases to - k,
    {
        let ghost before = r@;
        r.push(' ');
        let w = &ts[k];
        let mut j: usize = 0;
        while j < w.len()
            invariant
                j <= w.len(),
                r@ == before + seq![' '] + w@.take(j as int),
            decreases w.len() - j,
        {
            r.push(w[j]);
            assert(w@.take(j + 1) =~= w@.take(j as int).push(w@[j as int]));
            j = j + 1;
        }
        assert(w@.take(w@.len() as int) =~= w@);
        assert(tv.subrange(from as int, k + 1).drop_last() =~= tv.subrange(from as int, k as int));
        assert(tv.subrange(from as int, k + 1).last() == w@);
        k = k + 1;
    }
    r
}

/// The row of one line of the table.
fn parse_row(line: &Vec<char>) -> (r: Option<LscpuCore>)
    ensures
        r matches Some(c) ==> lscpu_row(line@) == Some(c@),
        r is None ==> lscpu_row(line@) is None,
{
    let t = tokens_of(line);
    let ghost tv = Seq::new(t.len() as nat, |i: int| t@[i]@);
    assert(tv =~= ws_tokens(line@));
    if t.len() < 4 {
        return None;
    }
    let n = t.len();
    let mut name = "cpu".to_owned();
    let cpu_str = &t[0];
    let mut j: usize = 0;
    proof {
        reveal_strlit("cpu");
    }
    assert(name@ =~= seq!['c', 'p', 'u']);
    while j < cpu_str.len()
        invariant
            j <= cpu_str.len(),
            name@ == seq!['c', 'p', 'u'] + cpu_str@.take(j as int),
        decreases cpu_str.len() - j,
    {
        name.push(cpu_str[j]);
        assert(cpu_str@.take(j + 1) =~= cpu_str@.take(j as int).push(cpu_str@[j as int]));
        j = j + 1;
    }
    assert(cpu_str@.take(cpu_str@.len() as int) =~= cpu_str@);
    let model_name = join_range(&t, 1, n - 2);
    let lo = &t[n - 2];
    let hi = &t[n - 1];
    let min_mhz = string_from(lo, 0, lo.len());
    let max_mhz = string_from(hi, 0, hi.len());
    assert(lo@.subrange(0, lo@.len() as int) =~= lo@);
    assert(hi@.subrange(0, hi@.len() as int) =~= hi@);
    Some(LscpuCore { name, model_name, min_mhz, max_mhz })
}

/// The number of a core row, by its name.
fn row_number(c: &LscpuCore) -> (n: usize)
    requires
        c.name@.len() >= 3,
    ensures
        n == core_number(c@),
{
    let v = chars_of(c.name.as_str());
    let digits = crate::text::chars_between(&v, 3, v.len());
    assert(digits@ =~= c.name@.skip(3));
    match parse_usize(&digits) {
        Some(n) => n,
        None => 0,
    }
}

/// Parses the output of `lscpu -e=cpu,modelname,minmhz,maxmhz`: every row
/// after the header, ordered by core number. `hint` is the expected number
/// of cores.
pub fn parse_lscpu_output(raw: &str, hint: usize) -> (cores: Vec<LscpuCore>)
    ensures
        rows_view(cores@).to_multiset() == lscpu_rows(data_lines(raw@)).to_multiset(),
        sorted_by_core(rows_view(cores@)),
{
    let v = chars_of(raw);
    let lines = lines_of(&v);
    let ghost ls = text_lines(v@);
    let ghost dl = data_lines(v@);
    let mut cores: Vec<LscpuCore> = Vec::with_capacity(hint);
    let mut k: usize = 1;
    proof {
        if ls.len() > 0 {
            assert(dl.take(0) =~= Seq::<Seq<char>>::empty());
        }
        assert(rows_view(cores@) =~= Seq::<CoreRow>::empty());
    }
    while k < lines.len()
        invariant
            1 <= k,
            lines.len() > 0 ==> k <= lines.len(),
            lines.len() == 0 ==> k == 1,
            ls == text_lines(v@),
            v@ == raw@,
            dl == data_lines(v@),
            lines.len() == ls.len(),
            forall|j: int| 0 <= j < lines.len() ==> #[trigger] lines@[j]@ == ls[j],
            forall|i: int| 0 <= i < cores.len() ==> (#[trigger] cores@[i]).name@.len() >= 3,
            sorted_by_core(rows_view(cores@)),
            rows_view(cores@).to_multiset() == lscpu_rows(dl.take(k as int - 1)).to_multiset(),
        decreases lines.len() - k,
    {
        assert(dl.take(k as int).drop_last() =~= dl.take(k as int - 1));
        assert(dl.take(k as int).last() == lines@[k as int]@);
        match parse_row(&lines[k]) {
            Some(row) => {
                assert(row.name@.len() >= 3);
                insert_sorted(&mut cores, row);
            },
            None => {},
        }
        k = k + 1;
    }
    proof {
        if lines.len() > 0 {
            assert(k == lines.len());
            assert(dl.len() == ls.len() - 1);
            assert(dl.take(k as int - 1) =~= dl);
        } else {
            assert(dl.len() == 0);
            assert(dl.take(k as int - 1) =~= dl);
        }
    }
    cores
}

/// Inserts `row` after every row with a number not above its own.
fn insert_sorted(cores: &mut Vec<LscpuCore>, row: LscpuCore)
    requires
        row.name@.len() >= 3,
        forall|i: int| 0 <= i < old(cores).len() ==> (#[trigger] old(cores)@[i]).name@.len() >= 3,
        sorted_by_core(rows_view(old(cores)@)),
    ensures
        forall|i: int| 0 <= i < final(cores).len() ==> (#[trigger] final(cores)@[i]).name@.len()
            >= 3,
        sorted_by_core(rows_view(final(cores)@)),
        rows_view(final(cores)@).to_multiset() == rows_view(old(cores)@).to_multiset().insert(
            row@,
        ),
{
    let key = row_number(&row);
    let ghost rv = rows_view(cores@);
    let mut p: usize = 0;
    while p < cores.len() && row_number(&cores[p]) <= key
        invariant
            p <= cores.len(),
            rv == rows_view(cores@),
            forall|i: int| 0 <= i < cores.len() ==> (#[trigger] cores@[i]).name@.len() >= 3,
            forall|i: int| 0 <= i < p ==> core_number(#[trigger] rv[i]) <= key,
        decreases cores.len() - p,
    {
        assert(rv[p as int] == cores@[p as int]@);
        p = p + 1;
    }
    proof {
        if p < cores.len() {
            assert(rv[p as int] == cores@[p as int]@);
        }
    }
    let ghost r = row@;
    cores.insert(p, row);
    proof {
        assert(rows_view(cores@) =~= rv.insert(p as int, r));
        let nv = rows_view(cores@);
        assert forall|i: int, j: int| 0 <= i < j < nv.len() implies core_number(#[trigger] nv[i])
            <= core_number(#[trigger] nv[j]) by {
            if j < p {
                assert(nv[i] == rv[i] && nv[j] == rv[j]);
            } else if j == p {
                assert(nv[i] == rv[i]);
            } else if i < p {
                assert(nv[i] == rv[i] && nv[j] == rv[j - 1]);
                assert(core_number(rv[p as int]) > key);
                if j - 1 > p {
                    assert(core_number(rv[p as int]) <= core_number(rv[j - 1]));
                }
            } else if i == p {
                assert(nv[j] == rv[j - 1]);
                if j - 1 > p {
                    assert(core_number(rv[p as int]) <= core_number(rv[j - 1]));
                }
            } else {
                assert(nv[i] == rv[i - 1] && nv[j] == rv[j - 1]);
            }
        }
    }
}

// ---------------------------------------------------------------------------
// Thermal zones and CPU directories.
// ---------------------------------------------------------------------------

/// What a thermal zone measures, by its type.
#[derive(Clone, Copy, PartialEq, Eq, Structural, Debug)]
pub enum ZoneKind {
    Cpu,
    Gpu,
    Other,
}

/// Code point of `c` with ASCII upper case mapped to lower case.
pub open spec fn lower_code(c: char) -> u32 {
    let x = c as u32;
    if 65 <= x <= 90 {
        (x + 32) as u32
    } else {
        x
    }
}

pub open spec fn lower_match_at(s: Seq<char>, pat: Seq<char>, i: int) -> bool {
    forall|j: int| 0 <= j < pat.len() ==> lower_code(#[trigger] s[i + j]) == pat[j] as u32
}

/// Whether `s` in ASCII lower case contains `pat`.
pub open spec fn contains_lower(s: Seq<char>, pat: Seq<char>) -> bool {
    exists|i: int| 0 <= i <= s.len() - pat.len() && #[trigger] lower_match_at(s, pat, i)
}

/// The kind of a zone by the content of its `type` file.
pub open spec fn zone_kind(zone_type: Seq<char>) -> ZoneKind {
    let t = trim(zone_type);
    if contains_lower(t, "cpuss-0"@) || contains_lower(t, "aoss-0"@) {
        ZoneKind::Cpu
    } else if contains_lower(t, "gpuss-0"@) {
        ZoneKind::Gpu
    } else {
        ZoneKind::Other
    }
}

fn contains_lower_exec(s: &Vec<char>, pat: &Vec<char>) -> (b: bool)
    ensures
        b == contains_lower(s@, pat@),
{
    if pat.len() > s.len() {
        return false;
    }
    let mut i: usize = 0;
    while i <= s.len() - pat.len()
        invariant
            pat.len() <= s.len(),
            i <= s.len() - pat.len() + 1,
            forall|k: int| 0 <= k < i ==> !#[trigger] lower_match_at(s@, pat@, k),
        decreases s.len() - pat.len() + 1 - i,
    {
        if lower_match_exec(s, pat, i) {
            return true;
        }
        i = i + 1;
    }
    false
}

fn lower_match_exec(s: &Vec<char>, pat: &Vec<char>, i: usize) -> (b: bool)
    requires
        i + pat.len() <= s.len(),
    ensures
        b == lower_match_at(s@, pat@, i as int),
{
    let mut j: usize = 0;
    while j < pat.len()
        invariant
            i + pat.len() <= s.len(),
            j <= pat.len(),
            forall|m: int| 0 <= m < j ==> lower_code(#[trigger] s@[i + m]) == pat@[m] as u32,
        decreases pat.len() - j,
    {
        let x = s[i + j] as u32;
        let lx = if 65 <= x && x <= 90 { x + 32 } else { x };
        if lx != pat[j] as u32 {
            assert(lower_code(s@[i + j as int]) != pat@[j as int] as u32);
            return false;
        }
        j = j + 1;
    }
    true
}

/// Classifies a thermal zone by the content of its `type` file.
pub fn classify_zone(zone_type: &str) -> (k: ZoneKind)
    ensures
        k == zone_kind(zone_type@),
{
    let v = chars_of(zone_type);
    let t = trimmed(&v);
    if contains_lower_exec(&t, &chars_of("cpuss-0")) || contains_lower_exec(&t, &chars_of("aoss-0")) {
        ZoneKind::Cpu
    } else if contains_lower_exec(&t, &chars_of("gpuss-0")) {
        ZoneKind::Gpu
    } else {
        ZoneKind::Other
    }
}

/// `s` with the ASCII upper-case letters turned into lower case.
pub open spec fn ascii_lower(s: Seq<char>) -> Seq<char> {
    Seq::new(
        s.len(),
        |i: int|
            if 65 <= (s[i] as u32) <= 90 {
                ((s[i] as u32) + 32) as char
            } else {
                s[i]
            },
    )
}

/// Whether `pat` occurs in `s` as a run of consecutive characters.
pub open spec fn occurs_in(pat: Seq<char>, s: Seq<char>) -> bool {
    exists|i: int| 0 <= i && i + pat.len() <= s.len() && #[trigger] s.subrange(i, i + pat.len()) == pat
}

proof fn lemma_char_by_code(c: char, d: char)
    requires
        c as u32 == d as u32,
    ensures
        c == d,
{
}

proof fn lemma_contains_lower_occurs(s: Seq<char>, pat: Seq<char>)
    ensures
        contains_lower(s, pat) <==> occurs_in(pat, ascii_lower(s)),
{
    let l = ascii_lower(s);
    assert forall|k: int| 0 <= k < s.len() implies (#[trigger] l[k]) as u32 == lower_code(s[k]) by {}
    if contains_lower(s, pat) {
        let i = choose|i: int| 0 <= i <= s.len() - pat.len() && #[trigger] lower_match_at(s, pat, i);
        assert forall|j: int| 0 <= j < pat.len() implies #[trigger] l.subrange(i, i + pat.len())[j] == pat[j] by {
            assert(lower_code(s[i + j]) == pat[j] as u32);
            assert(l[i + j] as u32 == pat[j] as u32);
            lemma_char_by_code(l[i + j], pat[j]);
            assert(l.subrange(i, i + pat.len())[j] == l[i + j]);
        }
        assert(l.subrange(i, i + pat.len()) =~= pat);
    }
    if occurs_in(pat, l) {
        let i = choose|i: int| 0 <= i && i + pat.len() <= l.len() && #[trigger] l.subrange(i, i + pat.len()) == pat;
        assert forall|j: int| 0 <= j < pat.len() implies lower_code(#[trigger] s[i + j]) == pat[j] as u32 by {
            assert(l.subrange(i, i + pat.len())[j] == l[i + j]);
        }
        assert(lower_match_at(s, pat, i));
    }
}

/// A zone measures the CPU exactly when its type, trimmed and in ASCII lower
/// case, contains `cpuss-0` or `aoss-0`; otherwise it measures the GPU
/// exactly when it contains `gpuss-0`; anything else is another kind.
pub proof fn lemma_zone_kind_by_type(zone_type: Seq<char>)
    ensures
        ({
            let t = ascii_lower(trim(zone_type));
            let cpu = occurs_in("cpuss-0"@, t) || occurs_in("aoss-0"@, t);
            &&& (zone_kind(zone_type) == ZoneKind::Cpu) <==> cpu
            &&& (zone_kind(zone_type) == ZoneKind::Gpu) <==> (!cpu && occurs_in("gpuss-0"@, t))
            &&& (zone_kind(zone_type) == ZoneKind::Other) <==> (!cpu && !occurs_in("gpuss-0"@, t))
        }),
{
    let t = trim(zone_type);
    lemma_contains_lower_occurs(t, "cpuss-0"@);
    lemma_contains_lower_occurs(t, "aoss-0"@);
    lemma_contains_lower_occurs(t, "gpuss-0"@);
}

/// Lexicographic order of character sequences by code point.
pub open spec fn lex_le(a: Seq<char>, b: Seq<char>) -> bool
    decreases a.len(),
{
    if a.len() == 0 {
        true
    } else if b.len() == 0 {
        false
    } else if (a[0] as u32) < (b[0] as u32) {
        true
    } else if (a[0] as u32) > (b[0] as u32) {
        false
    } else {
        lex_le(a.skip(1), b.skip(1))
    }
}

proof fn lemma_lex_total(a: Seq<char>, b: Seq<char>)
    ensures
        lex_le(a, b) || lex_le(b, a),
    decreases a.len(),
{
    if a.len() > 0 && b.len() > 0 && a[0] as u32 == b[0] as u32 {
        lemma_lex_total(a.skip(1), b.skip(1));
    }
}

proof fn lemma_lex_trans(a: Seq<char>, b: Seq<char>, c: Seq<char>)
    requires
        lex_le(a, b),
        lex_le(b, c),
    ensures
        lex_le(a, c),
    decreases a.len(),
{
    if a.len() > 0 && b.len() > 0 && c.len() > 0 && a[0] as u32 == b[0] as u32 && b[0] as u32
        == c[0] as u32 {
        lemma_lex_trans(a.skip(1), b.skip(1), c.skip(1));
    }
}

/// Whether `a` comes no later than `b`.
fn lex_le_exec(a: &Vec<char>, b: &Vec<char>) -> (r: bool)
    ensures
        r == lex_le(a@, b@),
{
    let mut i: usize = 0;
    assert(a@.skip(0) =~= a@);
    assert(b@.skip(0) =~= b@);
    while i < a.len() && i < b.len() && (a[i] as u32) == (b[i] as u32)
        invariant
            i <= a.len(),
            i <= b.len(),
            lex_le(a@, b@) == lex_le(a@.skip(i as int), b@.skip(i as int)),
        decreases a.len() - i,
    {
        assert(a@.skip(i as int).skip(1) =~= a@.skip(i + 1));
        assert(b@.skip(i as int).skip(1) =~= b@.skip(i + 1));
        i = i + 1;
    }
    if i == a.len() {
        assert(a@.skip(i as int).len() == 0);
        true
    } else if i == b.len() {
        assert(b@.skip(i as int).len() == 0);
        false
    } else {
        assert(a@.skip(i as int)[0] == a@[i as int]);
        assert(b@.skip(i as int)[0] == b@[i as int]);
        (a[i] as u32) < (b[i] as u32)
    }
}

/// A directory entry of the thermal class: its name, and the content of its
/// `type` file when that could be read.
pub struct ThermalZone {
    pub name: String,
    pub zone_type: Option<String>,
}

/// The thermal files chosen for the CPU and the GPU.
pub struct ThermalPaths {
    pub cpu_temp_path: String,
    pub gpu_temp_path: String,
}

/// Whether entry `z` is a thermal zone whose type says `kind`.
pub open spec fn zone_is(z: ThermalZone, kind: ZoneKind) -> bool {
    &&& starts_with(z.name@, "thermal_zone"@)
    &&& z.zone_type matches Some(t)
    &&& zone_kind(t@) == kind
}

/// The temperature file of a zone.
pub open spec fn zone_temp_path(name: Seq<char>) -> Seq<char> {
    "/sys/class/thermal/"@ + name + "/temp"@
}

/// The file chosen for `kind`: that of the matching zone that sorts last by
/// name, or `default` when no zone matches.
pub open spec fn chosen_path(zones: Seq<ThermalZone>, kind: ZoneKind, path: Seq<char>, default: Seq<
    char,
>) -> bool {
    if exists|i: int| 0 <= i < zones.len() && zone_is(#[trigger] zones[i], kind) {
        exists|i: int|
            0 <= i < zones.len() && zone_is(#[trigger] zones[i], kind) && path == zone_temp_path(
                zones[i].name@,
            ) && forall|j: int|
                0 <= j < zones.len() && zone_is(#[trigger] zones[j], kind) ==> lex_le(
                    zones[j].name@,
                    zones[i].name@,
                )
    } else {
        path == default
    }
}

/// Picks the CPU and GPU temperature files among the thermal zones:
/// zones whose type mentions `cpuss-0` or `aoss-0` serve the CPU, those
/// mentioning `gpuss-0` the GPU; among several, the zone that sorts last by
/// name wins; without any, `thermal_zone0` and `thermal_zone1` serve.
pub fn select_thermal_paths(zones: &Vec<ThermalZone>) -> (r: ThermalPaths)
    ensures
        chosen_path(
            zones@,
            ZoneKind::Cpu,
            r.cpu_temp_path@,
            "/sys/class/thermal/thermal_zone0/temp"@,
        ),
        chosen_path(
            zones@,
            ZoneKind::Gpu,
            r.gpu_temp_path@,
            "/sys/class/thermal/thermal_zone1/temp"@,
        ),
{
    let cpu = best_zone(zones, ZoneKind::Cpu);
    let gpu = best_zone(zones, ZoneKind::Gpu);
    let cpu_temp_path = match cpu {
        Some(i) => temp_path_of(&zones[i].name),
        None => "/sys/class/thermal/thermal_zone0/temp".to_owned(),
    };
    let gpu_temp_path = match gpu {
        Some(i) => temp_path_of(&zones[i].name),
        None => "/sys/class/thermal/thermal_zone1/temp".to_owned(),
    };
    ThermalPaths { cpu_temp_path, gpu_temp_path }
}

fn temp_path_of(name: &String) -> (p: String)
    ensures
        p@ == zone_temp_path(name@),
{
    let mut p = "/sys/class/thermal/".to_owned();
    append_str(&mut p, name.as_str());
    append_str(&mut p, "/temp");
    p
}

fn zone_is_exec(z: &ThermalZone, kind: ZoneKind) -> (b: bool)
    ensures
        b == zone_is(*z, kind),
{
    let name = chars_of(z.name.as_str());
    if !crate::text::has_prefix(&name, &chars_of("thermal_zone")) {
        return false;
    }
    match &z.zone_type {
        Some(t) => classify_zone(t.as_str()) == kind,
        None => false,
    }
}

/// Position of the zone of `kind` that sorts last by name.
fn best_zone(zones: &Vec<ThermalZone>, kind: ZoneKind) -> (r: Option<usize>)
    ensures
        r is None ==> forall|i: int| 0 <= i < zones.len() ==> !zone_is(#[trigger] zones@[i], kind),
        r matches Some(b) ==> b < zones.len() && zone_is(zones@[b as int], kind) && forall|j: int|
            0 <= j < zones.len() && zone_is(#[trigger] zones@[j], kind) ==> lex_le(
                zones@[j].name@,
                zones@[b as int].name@,
            ),
{
    let mut best: Option<usize> = None;
    let mut best_name: Vec<char> = Vec::new();
    let mut i: usize = 0;
    while i < zones.len()
        invariant
            i <= zones.len(),
            best is None ==> forall|k: int| 0 <= k < i ==> !zone_is(#[trigger] zones@[k], kind),
            best matches Some(b) ==> b < i && zone_is(zones@[b as int], kind) && best_name@
                == zones@[b as int].name@ && forall|j: int|
                0 <= j < i && zone_is(#[trigger] zones@[j], kind) ==> lex_le(
                    zones@[j].name@,
                    zones@[b as int].name@,
                ),
        decreases zones.len() - i,
    {
        if zone_is_exec(&zones[i], kind) {
            let name = chars_of(zones[i].name.as_str());
            let take = match best {
                None => true,
                Some(_) => lex_le_exec(&best_name, &name),
            };
            if take {
                proof {
                    if let Some(b) = best {
                        assert forall|j: int|
                            0 <= j < i + 1 && zone_is(#[trigger] zones@[j], kind) implies lex_le(
                            zones@[j].name@,
                            zones@[i as int].name@,
                        ) by {
                            if j < i {
                                lemma_lex_trans(
                                    zones@[j].name@,
                                    zones@[b as int].name@,
                                    zones@[i as int].name@,
                                );
                            } else {
                                lemma_lex_total(zones@[j].name@, zones@[j].name@);
                            }
                        }
                    } else {
                        assert forall|j: int|
                            0 <= j < i + 1 && zone_is(#[trigger] zones@[j], kind) implies lex_le(
                            zones@[j].name@,
                            zones@[i as int].name@,
                        ) by {
                            lemma_lex_total(zones@[j].name@, zones@[j].name@);
                        }
                    }
                }
                best = Some(i);
                best_name = name;
            } else {
                proof {
                    let b = best->0;
                    lemma_lex_total(zones@[b as int].name@, zones@[i as int].name@);
                }
            }
        }
        i = i + 1;
    }
    best
}

/// Whether a directory of the CPU class is a core: `cpu` followed by a digit.
pub open spec fn is_core_dir(name: Seq<char>) -> bool {
    name.len() > 3 && starts_with(name, "cpu"@) && is_digit(name[3])
}

pub open spec fn count_core_dirs_spec(names: Seq<Seq<char>>) -> nat
    decreases names.len(),
{
    if names.len() == 0 {
        0
    } else {
        count_core_dirs_spec(names.drop_last()) + if is_core_dir(names.last()) {
            1nat
        } else {
            0nat
        }
    }
}

pub open spec fn names_view(v: Seq<String>) -> Seq<Seq<char>> {
    Seq::new(v.len(), |i: int| v[i]@)
}

/// Counts the core directories among the names of the CPU class directory.
pub fn count_core_dirs(names: &Vec<String>) -> (n: usize)
    ensures
        n == count_core_dirs_spec(names_view(names@)),
{
    let ghost nv = names_view(names@);
    let cpu = chars_of("cpu");
    let mut n: usize = 0;
    let mut i: usize = 0;
    assert(nv.take(0) =~= Seq::<Seq<char>>::empty());
    while i < names.len()
        invariant
            i <= names.len(),
            nv == names_view(names@),
            cpu@ == "cpu"@,
            n <= i,
            n == count_core_dirs_spec(nv.take(i as int)),
        decreases names.len() - i,
    {
        assert(nv.take(i + 1).drop_last() =~= nv.take(i as int));
        assert(nv.take(i + 1).last() == names@[i as int]@);
        let v = chars_of(names[i].as_str());
        if v.len() > 3 && crate::text::has_prefix(&v, &cpu) {
            let x = v[3] as u32;
            if 48 <= x && x <= 57 {
                n = n + 1;
            }
        }
        i = i + 1;
    }
    assert(nv.take(names.len() as int) =~= nv);
    n
}

} // verus!
