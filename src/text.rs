//! Character-level helpers shared by the `.obj` and `.mtl` readers and writers.

use vstd::prelude::*;
use vstd::string::*;

verus! {

/// The characters for which `char::is_whitespace` holds: Unicode `White_Space`.
pub open spec fn is_ws(c: char) -> bool {
    ||| ('\u{9}' <= c && c <= '\u{d}')
    ||| c == ' '
    ||| c == '\u{85}'
    ||| c == '\u{a0}'
    ||| c == '\u{1680}'
    ||| ('\u{2000}' <= c && c <= '\u{200a}')
    ||| c == '\u{2028}'
    ||| c == '\u{2029}'
    ||| c == '\u{202f}'
    ||| c == '\u{205f}'
    ||| c == '\u{3000}'
}

/// Whether `c` is white space.
pub fn is_whitespace(c: char) -> (r: bool)
    ensures
        r == is_ws(c),
{
    ('\u{9}' <= c && c <= '\u{d}') || c == ' ' || c == '\u{85}' || c == '\u{a0}' || c == '\u{1680}'
        || ('\u{2000}' <= c && c <= '\u{200a}') || c == '\u{2028}' || c == '\u{2029}' || c
        == '\u{202f}' || c == '\u{205f}' || c == '\u{3000}'
}

/// The non-empty runs of non-white-space characters of `s`, in order.
pub open spec fn words_of(s: Seq<char>) -> Seq<Seq<char>>
    decreases s.len(),
{
    if s.len() == 0 {
        Seq::empty()
    } else {
        let w = words_of(s.drop_last());
        let c = s.last();
        if is_ws(c) {
            w
        } else if s.len() > 1 && !is_ws(s[s.len() - 2]) {
            w.update(w.len() - 1, w.last().push(c))
        } else {
            w.push(seq![c])
        }
    }
}

/// The characters of `s`, in order.
pub fn chars_of(s: &str) -> (r: Vec<char>)
    ensures
        r@ == s@,
{
    let mut r: Vec<char> = Vec::new();
    for c in it: s.chars()
        invariant
            r@ == it.seq().take(it.index() as int),
    {
        r.push(c);
    }
    r
}

/// Relies on `String`'s `FromIterator<char>`: the string holds the characters in order.
#[verifier::external_body]
pub(crate) fn string_of(cs: &[char]) -> (r: String)
    ensures
        r@ == cs@,
{
    cs.iter().collect()
}

/// The character sequences held by `v`.
pub open spec fn views(v: Seq<Vec<char>>) -> Seq<Seq<char>> {
    Seq::new(v.len(), |i: int| v[i]@)
}

/// The pieces of `s` between occurrences of `sep`, the last one included even if empty.
pub open spec fn pieces(s: Seq<char>, sep: char) -> Seq<Seq<char>>
    decreases s.len(),
{
    if s.len() == 0 {
        seq![Seq::empty()]
    } else {
        let l = pieces(s.drop_last(), sep);
        let c = s.last();
        if c == sep {
            l.push(Seq::empty())
        } else {
            l.update(l.len() - 1, l.last().push(c))
        }
    }
}

/// The lines of `s`: the pieces between line feeds.
pub open spec fn lines_of(s: Seq<char>) -> Seq<Seq<char>> {
    pieces(s, '\n')
}

pub proof fn lemma_pieces_nonempty(s: Seq<char>, sep: char)
    ensures
        pieces(s, sep).len() >= 1,
    decreases s.len(),
{
    if s.len() > 0 {
        lemma_pieces_nonempty(s.drop_last(), sep);
    }
}

pub proof fn lemma_words_nonempty(s: Seq<char>)
    ensures
        s.len() > 0 && !is_ws(s.last()) ==> words_of(s).len() >= 1,
        forall|i: int| 0 <= i < words_of(s).len() ==> #[trigger] words_of(s)[i].len() > 0,
    decreases s.len(),
{
    if s.len() > 0 {
        lemma_words_nonempty(s.drop_last());
        let w = words_of(s.drop_last());
        let c = s.last();
        if !is_ws(c) && s.len() > 1 && !is_ws(s[s.len() - 2]) {
            assert(s.drop_last().last() == s[s.len() - 2]);
        }
    }
}

/// Splits `cs` at each occurrence of `sep`.
pub fn split_on(cs: &Vec<char>, sep: char) -> (r: Vec<Vec<char>>)
    ensures
        views(r@) == pieces(cs@, sep),
{
    let mut r: Vec<Vec<char>> = Vec::new();
    let mut cur: Vec<char> = Vec::new();
    let mut i: usize = 0;
    while i < cs.len()
        invariant
            i <= cs.len(),
            views(r@).push(cur@) == pieces(cs@.take(i as int), sep),
        decreases cs.len() - i,
    {
        let c = cs[i];
        proof {
            assert(cs@.take(i + 1).drop_last() == cs@.take(i as int));
            assert(cs@.take(i + 1).last() == c);
        }
        if c == sep {
            r.push(cur);
            cur = Vec::new();
            assert(views(r@).push(cur@) =~= pieces(cs@.take(i + 1), sep));
        } else {
            cur.push(c);
            assert(views(r@).push(cur@) =~= pieces(cs@.take(i + 1), sep));
        }
        i = i + 1;
    }
    r.push(cur);
    assert(cs@.take(cs@.len() as int) =~= cs@);
    assert(views(r@) =~= pieces(cs@, sep));
    r
}

/// Splits `cs` into lines at each line feed.
pub fn split_lines(cs: &Vec<char>) -> (r: Vec<Vec<char>>)
    ensures
        views(r@) == lines_of(cs@),
{
    split_on(cs, '\n')
}

/// Splits `line` into its non-empty runs of non-white-space characters.
pub fn split_words(line: &Vec<char>) -> (r: Vec<Vec<char>>)
    ensures
        views(r@) == words_of(line@),
{
    let mut r: Vec<Vec<char>> = Vec::new();
    let mut i: usize = 0;
    while i < line.len()
        invariant
            i <= line.len(),
            views(r@) == words_of(line@.take(i as int)),
        decreases line.len() - i,
    {
        let c = line[i];
        let ghost t = line@.take(i + 1);
        proof {
            assert(t.drop_last() =~= line@.take(i as int));
            assert(t.last() == c);
            assert(i > 0 ==> t[i - 1] == line@[i - 1]);
            lemma_words_nonempty(line@.take(i as int));
        }
        if is_whitespace(c) {
        } else if i > 0 && !is_whitespace(line[i - 1]) {
            assert(line@.take(i as int).last() == line@[i - 1]);
            let mut w = r.pop().unwrap();
            w.push(c);
            r.push(w);
            assert(views(r@) =~= words_of(t));
        } else {
            let mut w: Vec<char> = Vec::new();
            w.push(c);
            r.push(w);
            assert(views(r@) =~= words_of(t));
        }
        i = i + 1;
    }
    assert(line@.take(line@.len() as int) =~= line@);
    r
}

/// Splits `s` into its non-empty runs of non-white-space characters.
pub fn words(s: &str) -> (r: Vec<String>)
    ensures
        r@.len() == words_of(s@).len(),
        forall|i: int| 0 <= i < r@.len() ==> #[trigger] r@[i]@ == words_of(s@)[i],
{
    let cs = chars_of(s);
    let ws = split_words(&cs);
    let mut r: Vec<String> = Vec::new();
    let mut i: usize = 0;
    while i < ws.len()
        invariant
            i <= ws.len(),
            views(ws@) == words_of(s@),
            r@.len() == i,
            forall|j: int| 0 <= j < i ==> #[trigger] r@[j]@ == words_of(s@)[j],
        decreases ws.len() - i,
    {
        let w = string_of(ws[i].as_slice());
                r.push(w);
        i = i + 1;
    }
    r
}

/// Whether `w` spells out `lit`.
pub fn eq_lit(w: &Vec<char>, lit: &str) -> (r: bool)
    ensures
        r == (w@ == lit@),
{
    let n = lit.unicode_len();
    if w.len() != n {
        return false;
    }
    let mut i: usize = 0;
    while i < n
        invariant
            n == lit@.len(),
            w@.len() == n,
            i <= n,
            forall|j: int| 0 <= j < i ==> w@[j] == lit@[j],
        decreases n - i,
    {
        if w[i] != lit.get_char(i) {
            return false;
        }
        i = i + 1;
    }
    assert(w@ =~= lit@);
    true
}

/// The number of white-space characters that `s` starts with.
pub open spec fn lead_ws(s: Seq<char>) -> nat
    decreases s.len(),
{
    if s.len() > 0 && is_ws(s[0]) {
        1 + lead_ws(s.drop_first())
    } else {
        0
    }
}

/// The number of other characters that `s` starts with.
pub open spec fn lead_word(s: Seq<char>) -> nat
    decreases s.len(),
{
    if s.len() > 0 && !is_ws(s[0]) {
        1 + lead_word(s.drop_first())
    } else {
        0
    }
}

/// The number of white-space characters that `s` ends with.
pub open spec fn trail_ws(s: Seq<char>) -> nat
    decreases s.len(),
{
    if s.len() > 0 && is_ws(s.last()) {
        1 + trail_ws(s.drop_last())
    } else {
        0
    }
}

/// `s` without the white space at either end.
pub open spec fn trim(s: Seq<char>) -> Seq<char> {
    let a = s.skip(lead_ws(s) as int);
    a.take(a.len() - trail_ws(a))
}

/// What follows the first word of `line`.
pub open spec fn after_command(line: Seq<char>) -> Seq<char> {
    let a = line.skip(lead_ws(line) as int);
    a.skip(lead_word(a) as int)
}

/// The name that an `o` or `g` line gives: the trimmed text after the command, where more than
/// one character follows the command.
pub open spec fn name_text(line: Seq<char>) -> Option<Seq<char>> {
    let r = after_command(line);
    if r.len() > 1 {
        Some(trim(r))
    } else {
        None
    }
}

pub proof fn lemma_lead_ws(s: Seq<char>, k: int)
    requires
        0 <= k <= s.len(),
        forall|j: int| 0 <= j < k ==> is_ws(#[trigger] s[j]),
        k == s.len() || !is_ws(s[k]),
    ensures
        lead_ws(s) == k,
    decreases k,
{
    if k > 0 {
        assert forall|j: int| 0 <= j < k - 1 implies is_ws(#[trigger] s.drop_first()[j]) by {
            assert(s.drop_first()[j] == s[j + 1]);
        }
        if k < s.len() {
            assert(s.drop_first()[k - 1] == s[k]);
        }
        lemma_lead_ws(s.drop_first(), k - 1);
    }
}

pub proof fn lemma_lead_word(s: Seq<char>, k: int)
    requires
        0 <= k <= s.len(),
        forall|j: int| 0 <= j < k ==> !is_ws(#[trigger] s[j]),
        k == s.len() || is_ws(s[k]),
    ensures
        lead_word(s) == k,
    decreases k,
{
    if k > 0 {
        assert forall|j: int| 0 <= j < k - 1 implies !is_ws(#[trigger] s.drop_first()[j]) by {
            assert(s.drop_first()[j] == s[j + 1]);
        }
        if k < s.len() {
            assert(s.drop_first()[k - 1] == s[k]);
        }
        lemma_lead_word(s.drop_first(), k - 1);
    }
}

pub proof fn lemma_trail_ws(s: Seq<char>, k: int)
    requires
        0 <= k <= s.len(),
        forall|j: int| s.len() - k <= j < s.len() ==> is_ws(#[trigger] s[j]),
        k == s.len() || !is_ws(s[s.len() - k - 1]),
    ensures
        trail_ws(s) == k,
    decreases k,
{
    if k > 0 {
        let p = s.drop_last();
        assert forall|j: int| p.len() - (k - 1) <= j < p.len() implies is_ws(#[trigger] p[j]) by {
            assert(p[j] == s[j]);
        }
        if k < s.len() {
            assert(p[p.len() - k] == s[s.len() - k - 1]);
        }
        lemma_trail_ws(p, k - 1);
    }
}

/// The name that the `o` or `g` line `line` gives.
pub fn name_in_line(line: &Vec<char>) -> (r: Option<String>)
    ensures
        match name_text(line@) {
            Some(n) => r matches Some(x) && x@ == n,
            None => r is None,
        },
{
    let n = line.len();
    let mut i: usize = 0;
    while i < n && is_whitespace(line[i])
        invariant
            i <= n == line@.len(),
            forall|j: int| 0 <= j < i ==> is_ws(#[trigger] line@[j]),
        decreases n - i,
    {
        i = i + 1;
    }
    proof {
        lemma_lead_ws(line@, i as int);
    }
    let mut j: usize = i;
    while j < n && !is_whitespace(line[j])
        invariant
            i <= j <= n == line@.len(),
            forall|k: int| i <= k < j ==> !is_ws(#[trigger] line@[k]),
        decreases n - j,
    {
        j = j + 1;
    }
    let ghost a = line@.skip(i as int);
    proof {
        assert forall|k: int| 0 <= k < j - i implies !is_ws(#[trigger] a[k]) by {
            assert(a[k] == line@[i + k]);
        }
        if j < n {
            assert(a[j - i] == line@[j as int]);
        }
        lemma_lead_word(a, j - i);
        assert(after_command(line@) =~= line@.skip(j as int));
    }
    if n - j <= 1 {
        return None;
    }
    let mut b: usize = j;
    while b < n && is_whitespace(line[b])
        invariant
            j <= b <= n == line@.len(),
            forall|k: int| j <= k < b ==> is_ws(#[trigger] line@[k]),
        decreases n - b,
    {
        b = b + 1;
    }
    let mut e: usize = n;
    while e > b && is_whitespace(line[e - 1])
        invariant
            b <= e <= n == line@.len(),
            forall|k: int| e <= k < n ==> is_ws(#[trigger] line@[k]),
        decreases e,
    {
        e = e - 1;
    }
    let ghost r = line@.skip(j as int);
    let ghost t = r.skip(lead_ws(r) as int);
    proof {
        assert forall|k: int| 0 <= k < b - j implies is_ws(#[trigger] r[k]) by {
            assert(r[k] == line@[j + k]);
        }
        if b < n {
            assert(r[b - j] == line@[b as int]);
        }
        lemma_lead_ws(r, b - j);
        assert(t =~= line@.skip(b as int));
        assert forall|k: int| t.len() - (n - e) <= k < t.len() implies is_ws(#[trigger] t[k]) by {
            assert(t[k] == line@[b + k]);
        }
        if e > b {
            assert(t[t.len() - (n - e) - 1] == line@[e - 1]);
        }
        lemma_trail_ws(t, n - e);
        assert(trim(r) =~= line@.subrange(b as int, e as int));
    }
    let cs = slice_of(line, b, e);
    Some(string_of(cs.as_slice()))
}

/// Whether `s` spells out `lit`.
pub fn eq_lit_str(s: &String, lit: &str) -> (r: bool)
    ensures
        r == (s@ == lit@),
{
    let cs = chars_of(s.as_str());
    eq_lit(&cs, lit)
}

pub open spec fn is_digit(c: char) -> bool {
    '0' <= c && c <= '9'
}

pub open spec fn digit_val(c: char) -> nat {
    (c as u32 - '0' as u32) as nat
}

pub open spec fn all_digits(s: Seq<char>) -> bool {
    forall|i: int| 0 <= i < s.len() ==> is_digit(#[trigger] s[i])
}

/// The number that the decimal digits `s` spell.
pub open spec fn digits_val(s: Seq<char>) -> nat
    decreases s.len(),
{
    if s.len() == 0 {
        0
    } else {
        digits_val(s.drop_last()) * 10 + digit_val(s.last())
    }
}

/// The integer that `s` spells as an optional sign followed by decimal digits.
pub open spec fn int_of(s: Seq<char>) -> Option<int> {
    if s.len() > 0 && (s[0] == '+' || s[0] == '-') {
        let d = s.drop_first();
        if d.len() > 0 && all_digits(d) {
            if s[0] == '-' {
                Some(-(digits_val(d) as int))
            } else {
                Some(digits_val(d) as int)
            }
        } else {
            None
        }
    } else if s.len() > 0 && all_digits(s) {
        Some(digits_val(s) as int)
    } else {
        None
    }
}

proof fn lemma_digits_val_prefix(s: Seq<char>, i: int)
    requires
        0 <= i <= s.len(),
    ensures
        digits_val(s.take(i)) <= digits_val(s),
    decreases s.len(),
{
    if i < s.len() {
        assert(s.drop_last().take(i) =~= s.take(i));
        lemma_digits_val_prefix(s.drop_last(), i);
    } else {
        assert(s.take(i) =~= s);
    }
}

/// The value of the decimal digits `s[lo..]`, or `None` where one is no digit, there are
/// none, or the value exceeds `cap`.
fn digits_upto(s: &Vec<char>, lo: usize, cap: u64) -> (r: Option<u64>)
    requires
        lo <= s@.len(),
    ensures
        ({
            let d = s@.subrange(lo as int, s@.len() as int);
            r == if d.len() > 0 && all_digits(d) && digits_val(d) <= cap {
                Some(digits_val(d) as u64)
            } else {
                None
            }
        }),
{
    let ghost d = s@.subrange(lo as int, s@.len() as int);
    if lo == s.len() {
        return None;
    }
    let mut v: u64 = 0;
    let mut i: usize = lo;
    while i < s.len()
        invariant
            lo <= i <= s@.len(),
            d == s@.subrange(lo as int, s@.len() as int),
            all_digits(d.take(i - lo)),
            v == digits_val(d.take(i - lo)),
            v <= cap,
        decreases s.len() - i,
    {
        let c = s[i];
        let ghost t = d.take(i - lo + 1);
        assert(t.drop_last() =~= d.take(i - lo));
        assert(t.last() == c);
        if !('0' <= c && c <= '9') {
            assert(!all_digits(d)) by {
                assert(!is_digit(d[i - lo]));
            }
            return None;
        }
        let dv = (c as u32 - '0' as u32) as u64;
        if dv > cap || v > (cap - dv) / 10 {
            proof {
                assert(digits_val(t) > cap) by (nonlinear_arith)
                    requires
                        digits_val(t) == v * 10 + dv,
                        dv > cap || v > (cap - dv) / 10,
                        dv <= 9,
                {
                }
                lemma_digits_val_prefix(d, i - lo + 1);
            }
            return None;
        }
        proof {
            assert(v * 10 + dv <= cap) by (nonlinear_arith)
                requires
                    v <= (cap - dv) / 10,
                    dv <= cap,
            {
            }
        }
        v = v * 10 + dv;
        i = i + 1;
        assert(all_digits(d.take(i - lo))) by {
            assert forall|j: int| 0 <= j < d.take(i - lo).len() implies is_digit(
                #[trigger] d.take(i - lo)[j],
            ) by {
                if j < i - lo - 1 {
                    assert(d.take(i - lo)[j] == d.take(i - lo - 1)[j]);
                }
            }
        }
    }
    assert(d.take(i - lo) =~= d);
    Some(v)
}

/// `int_of(s)` where it lies within `min..=max`.
pub open spec fn int_within(s: Seq<char>, min: int, max: int) -> Option<int> {
    match int_of(s) {
        Some(v) => if min <= v <= max {
            Some(v)
        } else {
            None
        },
        None => None,
    }
}

/// Reads an integer written as an optional sign followed by decimal digits, within `min..=max`.
fn parse_bounded(w: &Vec<char>, min: i64, max: i64) -> (r: Option<i64>)
    requires
        min < 0 <= max,
    ensures
        r is Some <==> int_within(w@, min as int, max as int) is Some,
        r is Some ==> r->0 as int == int_within(w@, min as int, max as int)->0,
{
    if w.len() == 0 {
        return None;
    }
    let c = w[0];
    if c == '+' || c == '-' {
        assert(w@.subrange(1, w@.len() as int) =~= w@.drop_first());
        if c == '-' {
            let cap: u64 = (-(min + 1)) as u64 + 1;
            match digits_upto(w, 1, cap) {
                Some(m) => {
                    if m == cap {
                        Some(min)
                    } else {
                        Some(-(m as i64))
                    }
                },
                None => {
                    proof {
                        if w@.drop_first().len() > 0 && all_digits(w@.drop_first()) {
                            assert(-(digits_val(w@.drop_first()) as int) < min);
                        }
                    }
                    None
                },
            }
        } else {
            match digits_upto(w, 1, max as u64) {
                Some(m) => Some(m as i64),
                None => None,
            }
        }
    } else {
        assert(w@.subrange(0, w@.len() as int) =~= w@);
        match digits_upto(w, 0, max as u64) {
            Some(m) => Some(m as i64),
            None => None,
        }
    }
}

/// Reads an `isize` written as an optional sign followed by decimal digits.
pub fn parse_isize(w: &Vec<char>) -> (r: Option<isize>)
    ensures
        r is Some <==> int_within(w@, isize::MIN as int, isize::MAX as int) is Some,
        r is Some ==> r->0 as int == int_of(w@)->0,
{
    match parse_bounded(w, isize::MIN as i64, isize::MAX as i64) {
        Some(v) => Some(v as isize),
        None => None,
    }
}

/// Reads an `i32` written as an optional sign followed by decimal digits.
pub fn parse_i32(w: &Vec<char>) -> (r: Option<i32>)
    ensures
        r is Some <==> int_within(w@, i32::MIN as int, i32::MAX as int) is Some,
        r is Some ==> r->0 as int == int_of(w@)->0,
{
    match parse_bounded(w, i32::MIN as i64, i32::MAX as i64) {
        Some(v) => Some(v as i32),
        None => None,
    }
}

/// `ws` joined by single spaces.
pub open spec fn join_words(ws: Seq<Seq<char>>) -> Seq<char>
    decreases ws.len(),
{
    if ws.len() == 0 {
        Seq::empty()
    } else if ws.len() == 1 {
        ws[0]
    } else {
        join_words(ws.drop_last()) + seq![' '] + ws.last()
    }
}

/// The characters `v[lo..hi]`.
pub fn slice_of(v: &Vec<char>, lo: usize, hi: usize) -> (r: Vec<char>)
    requires
        lo <= hi <= v@.len(),
    ensures
        r@ == v@.subrange(lo as int, hi as int),
{
    let mut r: Vec<char> = Vec::new();
    let mut i: usize = lo;
    while i < hi
        invariant
            lo <= i <= hi,
            hi <= v@.len(),
            r@ == v@.subrange(lo as int, i as int),
        decreases hi - i,
    {
        r.push(v[i]);
        i = i + 1;
        assert(r@ =~= v@.subrange(lo as int, i as int));
    }
    r
}

/// Whether all of `v[lo..hi]` are decimal digits.
fn digits_between(v: &Vec<char>, lo: usize, hi: usize) -> (r: bool)
    requires
        lo <= hi <= v@.len(),
    ensures
        r == all_digits(v@.subrange(lo as int, hi as int)),
{
    let mut i: usize = lo;
    while i < hi
        invariant
            lo <= i <= hi,
            hi <= v@.len(),
            all_digits(v@.subrange(lo as int, i as int)),
        decreases hi - i,
    {
        let c = v[i];
        if !('0' <= c && c <= '9') {
            assert(!is_digit(v@.subrange(lo as int, hi as int)[i - lo]));
            return false;
        }
        i = i + 1;
        assert forall|j: int| 0 <= j < i - lo implies is_digit(
            #[trigger] v@.subrange(lo as int, i as int)[j],
        ) by {
            if j < i - lo - 1 {
                assert(v@.subrange(lo as int, i as int)[j] == v@.subrange(
                    lo as int,
                    i - 1,
                )[j]);
            }
        }
    }
    true
}

/// Whether `s` is written as an optional sign followed by decimal digits.
pub fn is_int_text(s: &Vec<char>) -> (r: bool)
    ensures
        r == int_of(s@) is Some,
{
    if s.len() == 0 {
        return false;
    }
    if s[0] == '+' || s[0] == '-' {
        assert(s@.subrange(1, s@.len() as int) =~= s@.drop_first());
        s.len() > 1 && digits_between(s, 1, s.len())
    } else {
        assert(s@.subrange(0, s@.len() as int) =~= s@);
        digits_between(s, 0, s.len())
    }
}

/// `s` equals `lo` up to the case of each character, whose two cases `lo` and `up` give.
pub open spec fn ci_eq(s: Seq<char>, lo: Seq<char>, up: Seq<char>) -> bool {
    &&& s.len() == lo.len()
    &&& forall|i: int| 0 <= i < s.len() ==> #[trigger] s[i] == lo[i] || s[i] == up[i]
}

fn ci_matches(t: &Vec<char>, lo: &str, up: &str) -> (r: bool)
    requires
        lo@.len() == up@.len(),
    ensures
        r == ci_eq(t@, lo@, up@),
{
    let n = lo.unicode_len();
    if t.len() != n {
        return false;
    }
    let mut i: usize = 0;
    while i < n
        invariant
            n == lo@.len(),
            lo@.len() == up@.len(),
            t@.len() == n,
            i <= n,
            forall|j: int| 0 <= j < i ==> #[trigger] t@[j] == lo@[j] || t@[j] == up@[j],
        decreases n - i,
    {
        let c = t[i];
        if c != lo.get_char(i) && c != up.get_char(i) {
            return false;
        }
        i = i + 1;
    }
    true
}

/// The spellings of infinity and not-a-number that `f32`'s `FromStr` accepts.
pub open spec fn is_special(t: Seq<char>) -> bool {
    ||| ci_eq(t, "inf"@, "INF"@)
    ||| ci_eq(t, "infinity"@, "INFINITY"@)
    ||| ci_eq(t, "nan"@, "NAN"@)
}

/// Digits, with at most one decimal point, and at least one digit.
pub open spec fn mantissa_ok(m: Seq<char>) -> bool {
    ||| (m.len() > 0 && all_digits(m))
    ||| exists|k: int|
        0 <= k < m.len() && m.len() >= 2 && #[trigger] m[k] == '.' && all_digits(m.take(k))
            && all_digits(m.skip(k + 1))
}

/// `e` is the position of the first exponent mark of `t`, or its length where it has none.
pub open spec fn exp_at(t: Seq<char>, e: int) -> bool {
    &&& 0 <= e <= t.len()
    &&& forall|j: int| 0 <= j < e ==> #[trigger] t[j] != 'e' && t[j] != 'E'
    &&& e < t.len() ==> (t[e] == 'e' || t[e] == 'E')
}

pub open spec fn number_ok(t: Seq<char>) -> bool {
    exists|e: int|
        #[trigger] exp_at(t, e) && mantissa_ok(t.take(e)) && (e < t.len() ==> int_of(
            t.skip(e + 1),
        ) is Some)
}

/// The text of a floating-point number as `f32`'s `FromStr` accepts it: an optional sign,
/// then `inf`, `infinity` or `nan` in any case, or digits with an optional decimal point and
/// an optional exponent.
pub open spec fn is_float_lit(s: Seq<char>) -> bool {
    if s.len() > 0 && (s[0] == '+' || s[0] == '-') {
        is_special(s.drop_first()) || number_ok(s.drop_first())
    } else {
        is_special(s) || number_ok(s)
    }
}

fn mantissa_check(m: &Vec<char>) -> (r: bool)
    ensures
        r == mantissa_ok(m@),
{
    let n = m.len();
    let mut k: usize = 0;
    while k < n && '0' <= m[k] && m[k] <= '9'
        invariant
            k <= n == m@.len(),
            all_digits(m@.take(k as int)),
        decreases n - k,
    {
        k = k + 1;
        assert forall|j: int| 0 <= j < k implies is_digit(#[trigger] m@.take(k as int)[j]) by {
            if j < k - 1 {
                assert(m@.take(k as int)[j] == m@.take(k - 1)[j]);
            }
        }
    }
    if k == n {
        assert(m@.take(k as int) =~= m@);
        return n > 0;
    }
    // `k` is the first character that is no digit.
    if m[k] != '.' || n < 2 {
        proof {
            assert(!is_digit(m@[k as int]));
            assert forall|k2: int|
                0 <= k2 < m@.len() && m@.len() >= 2 && #[trigger] m@[k2] == '.' && all_digits(
                    m@.take(k2),
                ) implies !all_digits(m@.skip(k2 + 1)) by {
                if k2 < k {
                    assert(m@.take(k as int)[k2] == m@[k2]);
                    assert(is_digit(m@.take(k as int)[k2]));
                } else if k2 > k {
                    assert(m@.take(k2)[k as int] == m@[k as int]);
                    assert(is_digit(m@.take(k2)[k as int]));
                }
            }
        }
        return false;
    }
    assert(m@.subrange(k + 1, n as int) =~= m@.skip(k + 1));
    let r = digits_between(m, k + 1, n);
    proof {
        if !r {
            assert forall|k2: int|
                0 <= k2 < m@.len() && m@.len() >= 2 && #[trigger] m@[k2] == '.' && all_digits(
                    m@.take(k2),
                ) implies !all_digits(m@.skip(k2 + 1)) by {
                if k2 < k {
                    assert(m@.take(k as int)[k2] == m@[k2]);
                    assert(is_digit(m@.take(k as int)[k2]));
                } else if k2 > k {
                    assert(m@.take(k2)[k as int] == m@[k as int]);
                    assert(is_digit(m@.take(k2)[k as int]));
                }
            }
        }
        assert(!all_digits(m@)) by {
            assert(!is_digit(m@[k as int]));
        }
    }
    r
}

fn unsigned_float_ok(t: &Vec<char>) -> (r: bool)
    ensures
        r == (is_special(t@) || number_ok(t@)),
{
    proof {
        reveal_strlit("inf");
        reveal_strlit("INF");
        reveal_strlit("infinity");
        reveal_strlit("INFINITY");
        reveal_strlit("nan");
        reveal_strlit("NAN");
    }
    if ci_matches(t, "inf", "INF") || ci_matches(t, "infinity", "INFINITY") || ci_matches(
        t,
        "nan",
        "NAN",
    ) {
        return true;
    }
    let n = t.len();
    let mut e: usize = 0;
    while e < n && t[e] != 'e' && t[e] != 'E'
        invariant
            e <= n == t@.len(),
            forall|j: int| 0 <= j < e ==> #[trigger] t@[j] != 'e' && t@[j] != 'E',
        decreases n - e,
    {
        e = e + 1;
    }
    assert(exp_at(t@, e as int));
    let m = slice_of(t, 0, e);
    assert(m@ =~= t@.take(e as int));
    let mut ok = mantissa_check(&m);
    if ok && e < n {
        let x = slice_of(t, e + 1, n);
        assert(x@ =~= t@.skip(e + 1));
        ok = is_int_text(&x);
    }
    proof {
        if number_ok(t@) {
            let e2 = choose|e2: int|
                #[trigger] exp_at(t@, e2) && mantissa_ok(t@.take(e2)) && (e2 < t@.len()
                    ==> int_of(t@.skip(e2 + 1)) is Some);
            assert(e2 == e) by {
                if e2 < e {
                    assert(t@[e2] != 'e' && t@[e2] != 'E');
                } else if e2 > e {
                    assert(t@[e as int] != 'e' && t@[e as int] != 'E');
                }
            }
        }
    }
    ok
}

/// Whether `s` is the text of a floating-point number.
pub fn float_lit_ok(s: &Vec<char>) -> (r: bool)
    ensures
        r == is_float_lit(s@),
{
    if s.len() > 0 && (s[0] == '+' || s[0] == '-') {
        let t = slice_of(s, 1, s.len());
        assert(t@ =~= s@.drop_first());
        unsigned_float_ok(&t)
    } else {
        unsigned_float_ok(s)
    }
}

/// A floating-point number, kept as the text that wrote it.
#[derive(Debug, Clone, PartialEq)]
pub struct FloatLit {
    text: String,
}

impl View for FloatLit {
    type V = Seq<char>;

    closed spec fn view(&self) -> Seq<char> {
        self.text@
    }
}

impl FloatLit {
    /// The number that `s` writes, where it is the text of a floating-point number.
    pub fn parse(s: &str) -> (r: Option<FloatLit>)
        ensures
            r is Some <==> is_float_lit(s@),
            r is Some ==> r->0@ == s@,
    {
        let cs = chars_of(s);
        if float_lit_ok(&cs) {
            Some(FloatLit { text: String::from_str(s) })
        } else {
            None
        }
    }

    pub(crate) fn from_chars(cs: &Vec<char>) -> (r: Option<FloatLit>)
        ensures
            r is Some <==> is_float_lit(cs@),
            r is Some ==> r->0@ == cs@,
    {
        if float_lit_ok(cs) {
            Some(FloatLit { text: string_of(cs.as_slice()) })
        } else {
            None
        }
    }

    /// The text of the number.
    pub fn as_str(&self) -> (r: &str)
        ensures
            r@ == self@,
    {
        self.text.as_str()
    }
}

} // verus!
