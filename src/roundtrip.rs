//! Writing `.obj` contents and reading the text back gives the same contents.

use vstd::prelude::*;

use crate::text::{
    all_digits, digit_val, digits_val, int_of, is_digit, is_ws, join_words, lines_of, pieces,
    words_of,
};
use crate::obj::{initial_state, obj_run, obj_step, ObjState,
    normalize_spec, resolve_spec, IndexTuple, ObjErrorView};
use crate::text::{trim, after_command, name_text, lemma_lead_ws, lemma_lead_word, lemma_trail_ws, ci_eq, exp_at, int_within, is_float_lit, is_special, mantissa_ok, number_ok};
use crate::write::{ polys_text, group_text, groups_text, object_text, objects_text, libs_text, data_text, coord_lines, dec, digit_char, spaced, tuple_text};
use crate::obj::{empty_data, finish, obj_parse, with_data, coords_spec, face_spec, ObjDataView, GroupView, ObjectView, ObjMaterialView, material_name, close_group, new_group, default_name};

verus! {

/// Non-empty, without white space.
pub open spec fn is_word(s: Seq<char>) -> bool {
    s.len() > 0 && forall|i: int| 0 <= i < s.len() ==> !is_ws(#[trigger] s[i])
}

/// Holds no `c`.
pub open spec fn free_of(s: Seq<char>, c: char) -> bool {
    forall|i: int| 0 <= i < s.len() ==> #[trigger] s[i] != c
}

proof fn lemma_pieces_append(a: Seq<char>, b: Seq<char>, sep: char)
    ensures
        pieces(a + b, sep) == pieces(a, sep).drop_last() + seq![
            pieces(a, sep).last() + pieces(b, sep)[0],
        ] + pieces(b, sep).drop_first(),
    decreases b.len(),
{
    crate::text::lemma_pieces_nonempty(a, sep);
    crate::text::lemma_pieces_nonempty(b, sep);
    if b.len() == 0 {
        assert(a + b =~= a);
        assert(pieces(b, sep) =~= seq![Seq::<char>::empty()]);
        assert(pieces(a, sep).last() + Seq::<char>::empty() =~= pieces(a, sep).last());
        assert(pieces(a, sep).drop_last() + seq![pieces(a, sep).last()] =~= pieces(a, sep));
    } else {
        let b2 = b.drop_last();
        let c = b.last();
        lemma_pieces_append(a, b2, sep);
        crate::text::lemma_pieces_nonempty(b2, sep);
        assert((a + b).drop_last() =~= a + b2);
        assert((a + b).last() == c);
        let pa = pieces(a, sep);
        let pb2 = pieces(b2, sep);
        if c == sep {
            assert(pieces(b, sep) == pb2.push(Seq::<char>::empty()));
            if pb2.len() == 1 {
                assert(pieces(b, sep)[0] == pb2[0]);
                assert(pieces(b, sep).drop_first() =~= seq![Seq::<char>::empty()]);
            } else {
                assert(pieces(b, sep)[0] == pb2[0]);
                assert(pieces(b, sep).drop_first() =~= pb2.drop_first().push(Seq::<char>::empty()));
            }
            assert(pieces(a + b, sep) =~= pa.drop_last() + seq![pa.last() + pieces(b, sep)[0]]
                + pieces(b, sep).drop_first());
        } else {
            assert(pieces(b, sep) == pb2.update(pb2.len() - 1, pb2.last().push(c)));
            if pb2.len() == 1 {
                assert(pieces(b, sep)[0] == pb2[0].push(c));
                assert(pieces(b, sep).drop_first() =~= Seq::<Seq<char>>::empty());
                assert(pb2.drop_first() =~= Seq::<Seq<char>>::empty());
                assert(pa.last() + pb2[0].push(c) =~= (pa.last() + pb2[0]).push(c));
            } else {
                assert(pieces(b, sep)[0] == pb2[0]);
                assert(pieces(b, sep).drop_first() =~= pb2.drop_first().update(
                    pb2.len() - 2,
                    pb2.last().push(c),
                ));
            }
            assert(pieces(a + b, sep) =~= pa.drop_last() + seq![pa.last() + pieces(b, sep)[0]]
                + pieces(b, sep).drop_first());
        }
    }
}

proof fn lemma_pieces_free(s: Seq<char>, sep: char)
    requires
        free_of(s, sep),
    ensures
        pieces(s, sep) == seq![s],
    decreases s.len(),
{
    if s.len() == 0 {
        assert(s =~= Seq::<char>::empty());
        assert(pieces(s, sep) =~= seq![s]);
    } else {
        lemma_pieces_free(s.drop_last(), sep);
        assert(s.drop_last().push(s.last()) =~= s);
        assert(pieces(s, sep) =~= seq![s]);
    }
}

/// Pieces of `a`, a separator, then `b`.
proof fn lemma_pieces_sep(a: Seq<char>, b: Seq<char>, sep: char)
    requires
        free_of(a, sep),
    ensures
        pieces(a + seq![sep] + b, sep) == seq![a] + pieces(b, sep),
{
    lemma_pieces_free(a, sep);
    assert(pieces(a + seq![sep], sep) == pieces(a, sep).push(Seq::<char>::empty())) by {
        assert((a + seq![sep]).drop_last() =~= a);
    }
    lemma_pieces_append(a + seq![sep], b, sep);
    crate::text::lemma_pieces_nonempty(b, sep);
    let pb = pieces(b, sep);
    assert(Seq::<char>::empty() + pb[0] =~= pb[0]);
    assert(seq![a].push(Seq::<char>::empty()).drop_last() =~= seq![a]);
    assert(seq![a] + seq![pb[0]] + pb.drop_first() =~= seq![a] + pb);
}

/// The lines `ls`, each ended by a line feed.
pub open spec fn joined(ls: Seq<Seq<char>>) -> Seq<char>
    decreases ls.len(),
{
    if ls.len() == 0 {
        Seq::empty()
    } else {
        joined(ls.drop_last()) + ls.last() + "\n"@
    }
}

pub proof fn lemma_joined_append(a: Seq<Seq<char>>, b: Seq<Seq<char>>)
    ensures
        joined(a + b) == joined(a) + joined(b),
    decreases b.len(),
{
    if b.len() == 0 {
        assert(a + b =~= a);
        assert(joined(a) + Seq::<char>::empty() =~= joined(a));
    } else {
        assert((a + b).drop_last() =~= a + b.drop_last());
        lemma_joined_append(a, b.drop_last());
        assert(joined(a + b) =~= joined(a) + joined(b));
    }
}

pub proof fn lemma_lines_joined(ls: Seq<Seq<char>>)
    requires
        forall|i: int| 0 <= i < ls.len() ==> free_of(#[trigger] ls[i], '\n'),
    ensures
        lines_of(joined(ls)) == ls.push(Seq::<char>::empty()),
    decreases ls.len(),
{
    reveal_strlit("\n");
    if ls.len() == 0 {
        assert(lines_of(Seq::<char>::empty()) =~= seq![Seq::<char>::empty()]);
    } else {
        let prev = ls.drop_last();
        lemma_lines_joined(prev);
        assert(joined(ls) == joined(prev) + (ls.last() + seq!['\n'])) by {
            assert("\n"@ =~= seq!['\n']);
            assert(joined(prev) + ls.last() + "\n"@ =~= joined(prev) + (ls.last() + seq!['\n']));
        }
        lemma_pieces_sep(ls.last(), Seq::<char>::empty(), '\n');
        assert(ls.last() + seq!['\n'] + Seq::<char>::empty() =~= ls.last() + seq!['\n']);
        assert(pieces(Seq::<char>::empty(), '\n') =~= seq![Seq::<char>::empty()]);
        lemma_pieces_append(joined(prev), ls.last() + seq!['\n'], '\n');
        let pp = prev.push(Seq::<char>::empty());
        assert(pp.drop_last() =~= prev);
        assert(Seq::<char>::empty() + ls.last() =~= ls.last());
        assert(lines_of(joined(ls)) =~= ls.push(Seq::<char>::empty()));
    }
}

pub proof fn lemma_words_word(s: Seq<char>)
    requires
        is_word(s),
    ensures
        words_of(s) == seq![s],
    decreases s.len(),
{
    let p = s.drop_last();
    if p.len() == 0 {
        assert(words_of(p) =~= Seq::<Seq<char>>::empty());
        assert(seq![s.last()] =~= s);
    } else {
        assert(is_word(p)) by {
            assert forall|i: int| 0 <= i < p.len() implies !is_ws(#[trigger] p[i]) by {
                assert(p[i] == s[i]);
            }
        }
        lemma_words_word(p);
        assert(s[s.len() - 2] == p.last());
        assert(p.push(s.last()) =~= s);
        assert(words_of(s) =~= seq![s]);
    }
}

pub proof fn lemma_words_concat(a: Seq<char>, b: Seq<char>)
    ensures
        words_of(a + seq![' '] + b) == words_of(a) + words_of(b),
    decreases b.len(),
{
    let s = a + seq![' '] + b;
    if b.len() == 0 {
        assert(s.drop_last() =~= a);
        assert(words_of(b) =~= Seq::<Seq<char>>::empty());
        assert(words_of(a) + words_of(b) =~= words_of(a));
    } else {
        let b2 = b.drop_last();
        let c = b.last();
        lemma_words_concat(a, b2);
        assert(s.drop_last() =~= a + seq![' '] + b2);
        assert(s.last() == c);
        crate::text::lemma_words_nonempty(b2);
        crate::text::lemma_words_nonempty(b);
        if is_ws(c) {
            assert(words_of(s) =~= words_of(a) + words_of(b));
        } else if b2.len() == 0 {
            assert(s[s.len() - 2] == ' ');
            assert(words_of(b2) =~= Seq::<Seq<char>>::empty());
            assert(b =~= seq![c]);
            assert(words_of(s) =~= words_of(a) + words_of(b));
        } else {
            assert(s[s.len() - 2] == b2.last());
            assert(b[b.len() - 2] == b2.last());
            assert(words_of(s) =~= words_of(a) + words_of(b));
        }
    }
}

pub proof fn lemma_space()
    ensures
        " "@ == seq![' '],
{
    reveal_strlit(" ");
    assert(" "@ =~= seq![' ']);
}

/// The words of a keyword followed by words, each after a space.
pub proof fn lemma_words_spaced(kw: Seq<char>, xs: Seq<Seq<char>>)
    requires
        is_word(kw),
        forall|i: int| 0 <= i < xs.len() ==> is_word(#[trigger] xs[i]),
    ensures
        words_of(kw + spaced(xs)) == seq![kw] + xs,
    decreases xs.len(),
{
    lemma_space();
    if xs.len() == 0 {
        assert(kw + spaced(xs) =~= kw);
        lemma_words_word(kw);
        assert(seq![kw] + xs =~= seq![kw]);
    } else {
        let p = xs.drop_last();
        lemma_words_spaced(kw, p);
        lemma_words_word(xs.last());
        assert(kw + spaced(xs) =~= (kw + spaced(p)) + seq![' '] + xs.last());
        lemma_words_concat(kw + spaced(p), xs.last());
        assert(seq![kw] + p + seq![xs.last()] =~= seq![kw] + xs);
    }
}

/// The words of a keyword, a space, then `rest`.
pub proof fn lemma_words_keyword(kw: Seq<char>, rest: Seq<char>)
    requires
        is_word(kw),
    ensures
        words_of(kw + " "@ + rest) == seq![kw] + words_of(rest),
{
    lemma_space();
    lemma_words_concat(kw, rest);
    lemma_words_word(kw);
}

proof fn lemma_digit_char(d: nat)
    requires
        d < 10,
    ensures
        is_digit(digit_char(d)),
        digit_val(digit_char(d)) == d,
{
}

/// Digits only, and not empty.
pub open spec fn is_numeral(s: Seq<char>) -> bool {
    s.len() > 0 && all_digits(s)
}

pub proof fn lemma_dec(n: nat)
    ensures
        is_numeral(dec(n)),
        digits_val(dec(n)) == n,
    decreases n,
{
    if n < 10 {
        lemma_digit_char(n);
        assert(dec(n).drop_last() =~= Seq::<char>::empty());
        assert(dec(n).last() == digit_char(n));
        assert(digits_val(dec(n).drop_last()) == 0);
        assert(digits_val(dec(n)) == digits_val(dec(n).drop_last()) * 10 + digit_val(
            dec(n).last(),
        ));
    } else {
        lemma_dec(n / 10);
        lemma_digit_char(n % 10);
        assert(dec(n).drop_last() =~= dec(n / 10));
        assert(dec(n).last() == digit_char(n % 10));
        assert((n / 10) * 10 + n % 10 == n) by (nonlinear_arith);
        assert(digits_val(dec(n)) == digits_val(dec(n).drop_last()) * 10 + digit_val(
            dec(n).last(),
        ));
        assert forall|i: int| 0 <= i < dec(n).len() implies is_digit(#[trigger] dec(n)[i]) by {
            if i < dec(n).len() - 1 {
                assert(dec(n)[i] == dec(n / 10)[i]);
            }
        }
    }
}

pub proof fn lemma_numeral_word(s: Seq<char>)
    requires
        is_numeral(s),
    ensures
        is_word(s),
        free_of(s, '/'),
        free_of(s, '\n'),
{
    assert forall|i: int| 0 <= i < s.len() implies !is_ws(#[trigger] s[i]) && s[i] != '/' by {
        assert(is_digit(s[i]));
    }
}

proof fn lemma_dec_index(n: nat, len: nat)
    requires
        1 <= n <= isize::MAX,
        n - 1 < len,
    ensures
        normalize_spec(n as int, len as int) == Some(n - 1),
        int_within(dec(n), isize::MIN as int, isize::MAX as int) == Some(n as int),
{
    lemma_dec(n);
    assert(is_digit(dec(n)[0]));
    assert(int_of(dec(n)) == Some(n as int));
    assert(normalize_spec(n as int, len as int) == Some(n - 1));
}

/// The indices of a vertex name vertices among `np` positions, `nt` texture coordinates and
/// `nn` normals, and can be written and read back.
pub open spec fn tuple_ok(t: IndexTuple, np: nat, nt: nat, nn: nat) -> bool {
    &&& t.0 < np && t.0 < isize::MAX
    &&& (t.1 matches Some(x) ==> x < nt && x < isize::MAX)
    &&& (t.2 matches Some(x) ==> x < nn && x < isize::MAX)
}

proof fn lemma_slash()
    ensures
        "/"@ == seq!['/'],
        "//"@ == seq!['/', '/'],
{
    reveal_strlit("/");
    reveal_strlit("//");
    assert("/"@ =~= seq!['/']);
    assert("//"@ =~= seq!['/', '/']);
}

proof fn lemma_tuple_word(t: IndexTuple)
    ensures
        is_word(tuple_text(t)),
        free_of(tuple_text(t), '\n'),
{
    lemma_slash();
    lemma_dec(t.0 as nat + 1);
    let s = tuple_text(t);
    let a = dec(t.0 as nat + 1);
    assert forall|i: int| 0 <= i < s.len() implies !is_ws(#[trigger] s[i]) && s[i] != '\n' by {
        if i < a.len() {
            assert(s[i] == a[i]);
            assert(is_digit(a[i]));
        } else {
            match (t.1, t.2) {
                (None, None) => {},
                (Some(x), None) => {
                    lemma_dec(x as nat + 1);
                    let b = dec(x as nat + 1);
                    if i > a.len() {
                        assert(s[i] == b[i - a.len() - 1]);
                        assert(is_digit(b[i - a.len() - 1]));
                    }
                },
                (None, Some(y)) => {
                    lemma_dec(y as nat + 1);
                    let c = dec(y as nat + 1);
                    if i > a.len() + 1 {
                        assert(s[i] == c[i - a.len() - 2]);
                        assert(is_digit(c[i - a.len() - 2]));
                    }
                },
                (Some(x), Some(y)) => {
                    lemma_dec(x as nat + 1);
                    lemma_dec(y as nat + 1);
                    let b = dec(x as nat + 1);
                    let c = dec(y as nat + 1);
                    if a.len() < i < a.len() + 1 + b.len() {
                        assert(s[i] == b[i - a.len() - 1]);
                        assert(is_digit(b[i - a.len() - 1]));
                    } else if i > a.len() + 1 + b.len() {
                        assert(s[i] == c[i - a.len() - 2 - b.len()]);
                        assert(is_digit(c[i - a.len() - 2 - b.len()]));
                    }
                },
            }
        }
    }
}

/// A written vertex reads back as itself.
pub proof fn lemma_tuple_resolves(t: IndexTuple, np: nat, nt: nat, nn: nat, ln: nat)
    requires
        tuple_ok(t, np, nt, nn),
    ensures
        resolve_spec(tuple_text(t), np, nt, nn, ln) == Ok::<_, ObjErrorView>(t),
{
    lemma_slash();
    let a = dec(t.0 as nat + 1);
    lemma_dec_index(t.0 as nat + 1, np);
    lemma_dec(t.0 as nat + 1);
    lemma_numeral_word(a);
    match (t.1, t.2) {
        (None, None) => {
            assert(tuple_text(t) =~= a);
            lemma_pieces_free(a, '/');
        },
        (Some(x), None) => {
            let b = dec(x as nat + 1);
            lemma_dec_index(x as nat + 1, nt);
            lemma_dec(x as nat + 1);
            lemma_numeral_word(b);
            assert(tuple_text(t) =~= a + seq!['/'] + b);
            lemma_pieces_sep(a, b, '/');
            lemma_pieces_free(b, '/');
        },
        (None, Some(y)) => {
            let c = dec(y as nat + 1);
            lemma_dec_index(y as nat + 1, nn);
            lemma_dec(y as nat + 1);
            lemma_numeral_word(c);
            assert(tuple_text(t) =~= a + seq!['/'] + (Seq::<char>::empty() + seq!['/'] + c));
            lemma_pieces_sep(a, Seq::<char>::empty() + seq!['/'] + c, '/');
            lemma_pieces_sep(Seq::<char>::empty(), c, '/');
            lemma_pieces_free(c, '/');
            assert(int_of(Seq::<char>::empty()) is None);
        },
        (Some(x), Some(y)) => {
            let b = dec(x as nat + 1);
            let c = dec(y as nat + 1);
            lemma_dec_index(x as nat + 1, nt);
            lemma_dec_index(y as nat + 1, nn);
            lemma_dec(x as nat + 1);
            lemma_dec(y as nat + 1);
            lemma_numeral_word(b);
            lemma_numeral_word(c);
            assert(tuple_text(t) =~= a + seq!['/'] + (b + seq!['/'] + c));
            lemma_pieces_sep(a, b + seq!['/'] + c, '/');
            lemma_pieces_sep(b, c, '/');
            lemma_pieces_free(c, '/');
        },
    }
}

pub proof fn lemma_keywords()
    ensures
        "v"@ == seq!['v'],
        "vt"@ == seq!['v', 't'],
        "vn"@ == seq!['v', 'n'],
        "f"@ == seq!['f'],
        "o"@ == seq!['o'],
        "g"@ == seq!['g'],
        "mtllib"@ == seq!['m', 't', 'l', 'l', 'i', 'b'],
        "usemtl"@ == seq!['u', 's', 'e', 'm', 't', 'l'],
        "s"@ == seq!['s'],
        "l"@ == seq!['l'],
        "default"@ == seq!['d', 'e', 'f', 'a', 'u', 'l', 't'],
        "g "@ == "g"@ + " "@,
        "o "@ == "o"@ + " "@,
        "usemtl "@ == "usemtl"@ + " "@,
        "mtllib "@ == "mtllib"@ + " "@,
        "\n"@ == seq!['\n'],
{
    reveal_strlit("v");
    reveal_strlit("vt");
    reveal_strlit("vn");
    reveal_strlit("f");
    reveal_strlit("o");
    reveal_strlit("g");
    reveal_strlit("mtllib");
    reveal_strlit("usemtl");
    reveal_strlit("s");
    reveal_strlit("l");
    reveal_strlit("default");
    reveal_strlit("g ");
    reveal_strlit("o ");
    reveal_strlit("usemtl ");
    reveal_strlit("mtllib ");
    reveal_strlit(" ");
    reveal_strlit("\n");
    assert("v"@ =~= seq!['v']);
    assert("vt"@ =~= seq!['v', 't']);
    assert("vn"@ =~= seq!['v', 'n']);
    assert("f"@ =~= seq!['f']);
    assert("o"@ =~= seq!['o']);
    assert("g"@ =~= seq!['g']);
    assert("mtllib"@ =~= seq!['m', 't', 'l', 'l', 'i', 'b']);
    assert("usemtl"@ =~= seq!['u', 's', 'e', 'm', 't', 'l']);
    assert("s"@ =~= seq!['s']);
    assert("l"@ =~= seq!['l']);
    assert("default"@ =~= seq!['d', 'e', 'f', 'a', 'u', 'l', 't']);
    assert("g "@ =~= "g"@ + " "@);
    assert("o "@ =~= "o"@ + " "@);
    assert("usemtl "@ =~= "usemtl"@ + " "@);
    assert("mtllib "@ =~= "mtllib"@ + " "@);
    assert("\n"@ =~= seq!['\n']);
}

pub proof fn lemma_keywords_distinct()
    ensures
        "vt"@ != "v"@,
        "vn"@ != "v"@,
        "vn"@ != "vt"@,
        "f"@ != "v"@,
        "f"@ != "vt"@,
        "f"@ != "vn"@,
        "o"@ != "v"@,
        "o"@ != "vt"@,
        "o"@ != "vn"@,
        "o"@ != "f"@,
        "g"@ != "v"@,
        "g"@ != "vt"@,
        "g"@ != "vn"@,
        "g"@ != "f"@,
        "g"@ != "o"@,
        "mtllib"@ != "v"@,
        "mtllib"@ != "vt"@,
        "mtllib"@ != "vn"@,
        "mtllib"@ != "f"@,
        "mtllib"@ != "o"@,
        "mtllib"@ != "g"@,
        "usemtl"@ != "v"@,
        "usemtl"@ != "vt"@,
        "usemtl"@ != "vn"@,
        "usemtl"@ != "f"@,
        "usemtl"@ != "o"@,
        "usemtl"@ != "g"@,
        "usemtl"@ != "mtllib"@,
        "s"@ != "v"@,
        "s"@ != "vt"@,
        "s"@ != "vn"@,
        "s"@ != "f"@,
        "s"@ != "o"@,
        "s"@ != "g"@,
        "s"@ != "mtllib"@,
        "s"@ != "usemtl"@,
        "l"@ != "v"@,
        "l"@ != "vt"@,
        "l"@ != "vn"@,
        "l"@ != "f"@,
        "l"@ != "o"@,
        "l"@ != "g"@,
        "l"@ != "mtllib"@,
        "l"@ != "usemtl"@,
        "l"@ != "s"@,
{
    lemma_keywords();
    assert("vt"@.len() != "v"@.len());
    assert("vn"@.len() != "v"@.len());
    assert("vn"@[1] != "vt"@[1]);
    assert("f"@[0] != "v"@[0]);
    assert("f"@.len() != "vt"@.len());
    assert("f"@.len() != "vn"@.len());
    assert("o"@[0] != "v"@[0]);
    assert("o"@.len() != "vt"@.len());
    assert("o"@.len() != "vn"@.len());
    assert("o"@[0] != "f"@[0]);
    assert("g"@[0] != "v"@[0]);
    assert("g"@.len() != "vt"@.len());
    assert("g"@.len() != "vn"@.len());
    assert("g"@[0] != "f"@[0]);
    assert("g"@[0] != "o"@[0]);
    assert("mtllib"@.len() != "v"@.len());
    assert("mtllib"@.len() != "vt"@.len());
    assert("mtllib"@.len() != "vn"@.len());
    assert("mtllib"@.len() != "f"@.len());
    assert("mtllib"@.len() != "o"@.len());
    assert("mtllib"@.len() != "g"@.len());
    assert("usemtl"@.len() != "v"@.len());
    assert("usemtl"@.len() != "vt"@.len());
    assert("usemtl"@.len() != "vn"@.len());
    assert("usemtl"@.len() != "f"@.len());
    assert("usemtl"@.len() != "o"@.len());
    assert("usemtl"@.len() != "g"@.len());
    assert("usemtl"@[0] != "mtllib"@[0]);
    assert("s"@[0] != "v"@[0]);
    assert("s"@.len() != "vt"@.len());
    assert("s"@.len() != "vn"@.len());
    assert("s"@[0] != "f"@[0]);
    assert("s"@[0] != "o"@[0]);
    assert("s"@[0] != "g"@[0]);
    assert("s"@.len() != "mtllib"@.len());
    assert("s"@.len() != "usemtl"@.len());
    assert("l"@[0] != "v"@[0]);
    assert("l"@.len() != "vt"@.len());
    assert("l"@.len() != "vn"@.len());
    assert("l"@[0] != "f"@[0]);
    assert("l"@[0] != "o"@[0]);
    assert("l"@[0] != "g"@[0]);
    assert("l"@.len() != "mtllib"@.len());
    assert("l"@.len() != "usemtl"@.len());
    assert("l"@[0] != "s"@[0]);
}

/// The reader's state after the lines `ls`, the first of them numbered `k`, from `st`.
pub open spec fn steps(st: ObjState, ls: Seq<Seq<char>>, k: nat, strict: bool) -> Result<
    ObjState,
    ObjErrorView,
>
    decreases ls.len(),
{
    if ls.len() == 0 {
        Ok(st)
    } else {
        match steps(st, ls.drop_last(), k, strict) {
            Ok(s) => obj_step(s, ls.last(), (k + ls.len() - 1) as nat, strict),
            Err(e) => Err(e),
        }
    }
}

proof fn lemma_run_steps(ls: Seq<Seq<char>>, strict: bool)
    ensures
        obj_run(ls, strict) == steps(initial_state(), ls, 0, strict),
    decreases ls.len(),
{
    if ls.len() > 0 {
        lemma_run_steps(ls.drop_last(), strict);
    }
}

proof fn lemma_steps_append(st: ObjState, a: Seq<Seq<char>>, b: Seq<Seq<char>>, k: nat, strict: bool)
    ensures
        steps(st, a + b, k, strict) == match steps(st, a, k, strict) {
            Ok(s) => steps(s, b, k + a.len(), strict),
            Err(e) => Err(e),
        },
    decreases b.len(),
{
    if b.len() == 0 {
        assert(a + b =~= a);
    } else {
        assert((a + b).drop_last() =~= a + b.drop_last());
        lemma_steps_append(st, a, b.drop_last(), k, strict);
        assert((a + b).last() == b.last());
    }
}

proof fn lemma_steps_one(st: ObjState, l: Seq<char>, k: nat, strict: bool)
    ensures
        steps(st, seq![l], k, strict) == obj_step(st, l, k, strict),
{
    assert(seq![l].drop_last() =~= Seq::<Seq<char>>::empty());
    assert(seq![l].last() == l);
    assert(steps(st, Seq::<Seq<char>>::empty(), k, strict) == Ok::<_, ObjErrorView>(st));
    assert((k + seq![l].len() - 1) as nat == k);
}

pub proof fn lemma_free_ws(s: Seq<char>)
    requires
        forall|i: int| 0 <= i < s.len() ==> !is_ws(#[trigger] s[i]),
    ensures
        free_of(s, '\n'),
{
    assert forall|i: int| 0 <= i < s.len() implies #[trigger] s[i] != '\n' by {
        assert(!is_ws(s[i]));
    }
}

proof fn lemma_ci_word(t: Seq<char>, lo: Seq<char>, up: Seq<char>)
    requires
        ci_eq(t, lo, up),
        is_word(lo),
        up.len() == lo.len(),
        forall|i: int| 0 <= i < up.len() ==> !is_ws(#[trigger] up[i]),
    ensures
        is_word(t),
{
    assert forall|i: int| 0 <= i < t.len() implies !is_ws(#[trigger] t[i]) by {
        assert(t[i] == lo[i] || t[i] == up[i]);
    }
}

proof fn lemma_special_word(t: Seq<char>)
    requires
        is_special(t),
    ensures
        is_word(t),
{
    reveal_strlit("inf");
    reveal_strlit("INF");
    reveal_strlit("infinity");
    reveal_strlit("INFINITY");
    reveal_strlit("nan");
    reveal_strlit("NAN");
    if ci_eq(t, "inf"@, "INF"@) {
        lemma_ci_word(t, "inf"@, "INF"@);
    } else if ci_eq(t, "infinity"@, "INFINITY"@) {
        lemma_ci_word(t, "infinity"@, "INFINITY"@);
    } else {
        lemma_ci_word(t, "nan"@, "NAN"@);
    }
}

proof fn lemma_number_word(t: Seq<char>)
    requires
        number_ok(t),
    ensures
        is_word(t),
{
    let e = choose|e: int|
        #[trigger] exp_at(t, e) && mantissa_ok(t.take(e)) && (e < t.len() ==> int_of(
            t.skip(e + 1),
        ) is Some);
    let m = t.take(e);
    assert forall|i: int| 0 <= i < m.len() implies !is_ws(#[trigger] m[i]) by {
        if m.len() > 0 && all_digits(m) {
            assert(is_digit(m[i]));
        } else {
            let k = choose|k: int|
                0 <= k < m.len() && m.len() >= 2 && #[trigger] m[k] == '.' && all_digits(m.take(k))
                    && all_digits(m.skip(k + 1));
            if i < k {
                assert(m.take(k)[i] == m[i]);
                assert(is_digit(m.take(k)[i]));
            } else if i > k {
                assert(m.skip(k + 1)[i - k - 1] == m[i]);
                assert(is_digit(m.skip(k + 1)[i - k - 1]));
            }
        }
    }
    assert(m.len() > 0);
    assert forall|i: int| 0 <= i < t.len() implies !is_ws(#[trigger] t[i]) by {
        if i < e {
            assert(m[i] == t[i]);
        } else if i > e {
            let x = t.skip(e + 1);
            assert(x[i - e - 1] == t[i]);
            if x.len() > 0 && (x[0] == '+' || x[0] == '-') {
                if i > e + 1 {
                    assert(x.drop_first()[i - e - 2] == x[i - e - 1]);
                    assert(is_digit(x.drop_first()[i - e - 2]));
                }
            } else {
                assert(is_digit(x[i - e - 1]));
            }
        }
    }
}

/// The text of a floating-point number holds no white space.
pub proof fn lemma_float_word(s: Seq<char>)
    requires
        is_float_lit(s),
    ensures
        is_word(s),
        free_of(s, '\n'),
{
    if s.len() > 0 && (s[0] == '+' || s[0] == '-') {
        let t = s.drop_first();
        if is_special(t) {
            lemma_special_word(t);
        } else {
            lemma_number_word(t);
        }
        assert forall|i: int| 0 <= i < s.len() implies !is_ws(#[trigger] s[i]) by {
            if i > 0 {
                assert(t[i - 1] == s[i]);
            }
        }
    } else {
        if is_special(s) {
            lemma_special_word(s);
        } else {
            lemma_number_word(s);
        }
    }
    lemma_free_ws(s);
}

/// Words joined by single spaces, that splitting gives back.
pub open spec fn is_name(s: Seq<char>) -> bool {
    words_of(s).len() > 0 && join_words(words_of(s)) == s
}

pub proof fn lemma_join_free(ws: Seq<Seq<char>>)
    requires
        forall|i: int| 0 <= i < ws.len() ==> is_word(#[trigger] ws[i]),
    ensures
        free_of(join_words(ws), '\n'),
    decreases ws.len(),
{
    if ws.len() > 1 {
        lemma_join_free(ws.drop_last());
        let a = join_words(ws.drop_last());
        let b = ws.last();
        let j = join_words(ws);
        assert(j == a + seq![' '] + b);
        assert forall|i: int| 0 <= i < j.len() implies #[trigger] j[i] != '\n' by {
            if i < a.len() {
                assert(j[i] == a[i]);
            } else if i > a.len() {
                assert(j[i] == b[i - a.len() - 1]);
                assert(!is_ws(b[i - a.len() - 1]));
            }
        }
    } else if ws.len() == 1 {
        lemma_free_ws(ws[0]);
    }
}

proof fn lemma_name_free(s: Seq<char>)
    requires
        is_name(s),
    ensures
        free_of(s, '\n'),
{
    crate::text::lemma_words_nonempty(s);
    lemma_words_are_words(s);
    lemma_join_free(words_of(s));
}

pub proof fn lemma_words_are_words(s: Seq<char>)
    ensures
        forall|i: int| 0 <= i < words_of(s).len() ==> is_word(#[trigger] words_of(s)[i]),
    decreases s.len(),
{
    crate::text::lemma_words_nonempty(s);
    if s.len() > 0 {
        lemma_words_are_words(s.drop_last());
        let w = words_of(s.drop_last());
        let c = s.last();
        crate::text::lemma_words_nonempty(s.drop_last());
        assert forall|i: int| 0 <= i < words_of(s).len() implies is_word(
            #[trigger] words_of(s)[i],
        ) by {
            if is_ws(c) {
            } else if s.len() > 1 && !is_ws(s[s.len() - 2]) {
                if i == w.len() - 1 {
                    let x = w.last().push(c);
                    assert(words_of(s)[i] == x);
                    assert forall|j: int| 0 <= j < x.len() implies !is_ws(#[trigger] x[j]) by {
                        if j < x.len() - 1 {
                            assert(x[j] == w.last()[j]);
                        }
                    }
                } else {
                    assert(words_of(s)[i] == w[i]);
                }
            } else {
                if i == w.len() {
                    assert(words_of(s)[i] == seq![c]);
                } else {
                    assert(words_of(s)[i] == w[i]);
                }
            }
        }
    }
}

pub open spec fn coord_seq(kw: Seq<char>, cs: Seq<Seq<Seq<char>>>) -> Seq<Seq<char>> {
    Seq::new(cs.len(), |i: int| kw + spaced(cs[i]))
}

proof fn lemma_coord_text(kw: Seq<char>, cs: Seq<Seq<Seq<char>>>)
    ensures
        coord_lines(kw, cs) == joined(coord_seq(kw, cs)),
    decreases cs.len(),
{
    if cs.len() > 0 {
        lemma_coord_text(kw, cs.drop_last());
        assert(coord_seq(kw, cs).drop_last() =~= coord_seq(kw, cs.drop_last()));
        assert(coord_lines(kw, cs) =~= joined(coord_seq(kw, cs)));
    } else {
        assert(coord_seq(kw, cs) =~= Seq::<Seq<char>>::empty());
    }
}

/// Entries of `n` numbers each.
pub open spec fn coords_ok(cs: Seq<Seq<Seq<char>>>, n: nat) -> bool {
    forall|i: int|
        0 <= i < cs.len() ==> (#[trigger] cs[i]).len() == n && forall|j: int|
            0 <= j < n ==> is_float_lit(#[trigger] cs[i][j])
}

proof fn lemma_coord_words(kw: Seq<char>, c: Seq<Seq<char>>, n: nat, ln: nat)
    requires
        is_word(kw),
        c.len() == n,
        forall|j: int| 0 <= j < n ==> is_float_lit(#[trigger] c[j]),
    ensures
        words_of(kw + spaced(c)) == seq![kw] + c,
        free_of(kw + spaced(c), '\n'),
        coords_spec(c, n, ln) == Ok::<_, ObjErrorView>(c),
{
    assert forall|j: int| 0 <= j < c.len() implies is_word(#[trigger] c[j]) by {
        lemma_float_word(c[j]);
    }
    lemma_words_spaced(kw, c);
    lemma_spaced_free(kw, c);
    assert(c.take(n as int) =~= c);
}

pub proof fn lemma_spaced_free(kw: Seq<char>, c: Seq<Seq<char>>)
    requires
        is_word(kw),
        forall|j: int| 0 <= j < c.len() ==> is_word(#[trigger] c[j]),
    ensures
        free_of(kw + spaced(c), '\n'),
    decreases c.len(),
{
    lemma_space();
    if c.len() == 0 {
        assert(kw + spaced(c) =~= kw);
        lemma_free_ws(kw);
    } else {
        lemma_spaced_free(kw, c.drop_last());
        let a = kw + spaced(c.drop_last());
        let b = c.last();
        let x = kw + spaced(c);
        assert(x =~= a + seq![' '] + b);
        assert forall|i: int| 0 <= i < x.len() implies #[trigger] x[i] != '\n' by {
            if i < a.len() {
                assert(x[i] == a[i]);
            } else if i > a.len() {
                assert(x[i] == b[i - a.len() - 1]);
                assert(!is_ws(b[i - a.len() - 1]));
            }
        }
    }
}

proof fn lemma_steps_position(st: ObjState, cs: Seq<Seq<Seq<char>>>, k: nat, strict: bool)
    requires
        coords_ok(cs, 3),
    ensures
        steps(st, coord_seq("v"@, cs), k, strict) == Ok::<_, ObjErrorView>(
            with_data(st, ObjDataView { position: st.data.position + cs, ..st.data }),
        ),
    decreases cs.len(),
{
    lemma_keywords();
    let ls = coord_seq("v"@, cs);
    if cs.len() == 0 {
        assert(st.data.position + cs =~= st.data.position);
        assert(ObjDataView { position: st.data.position + cs, ..st.data } == st.data);
        assert(steps(st, ls, k, strict) == Ok::<_, ObjErrorView>(st));
    } else {
        let p = cs.drop_last();
        assert(coords_ok(p, 3)) by {
            assert forall|i: int| 0 <= i < p.len() implies (#[trigger] p[i]).len() == 3 && forall|j: int|
                0 <= j < 3 ==> is_float_lit(#[trigger] p[i][j]) by {
                assert(p[i] == cs[i]);
            }
        }
        lemma_steps_position(st, p, k, strict);
        assert(ls.drop_last() =~= coord_seq("v"@, p));
        let c = cs.last();
        assert(c == cs[cs.len() - 1]);
        lemma_coord_words("v"@, c, 3, (k + ls.len() - 1) as nat);
        assert(ls.last() == "v"@ + spaced(c));
        let w = seq!["v"@] + c;
        assert(w.drop_first() =~= c);
        assert(st.data.position + p + seq![c] =~= st.data.position + cs);
        let s1 = with_data(st, ObjDataView { position: st.data.position + p, ..st.data });
        assert(steps(st, ls.drop_last(), k, strict) == Ok::<_, ObjErrorView>(s1));
        assert(words_of(ls.last()) == w);
        assert(w[0] == "v"@);
        let s2 = obj_step(s1, ls.last(), (k + ls.len() - 1) as nat, strict);
        assert(s2 == Ok::<_, ObjErrorView>(
            with_data(s1, ObjDataView { position: s1.data.position.push(c), ..s1.data }),
        ));
        assert(s1.data.position.push(c) =~= st.data.position + cs);
    }
}

proof fn lemma_steps_texture(st: ObjState, cs: Seq<Seq<Seq<char>>>, k: nat, strict: bool)
    requires
        coords_ok(cs, 2),
    ensures
        steps(st, coord_seq("vt"@, cs), k, strict) == Ok::<_, ObjErrorView>(
            with_data(st, ObjDataView { texture: st.data.texture + cs, ..st.data }),
        ),
    decreases cs.len(),
{
    lemma_keywords();
    let ls = coord_seq("vt"@, cs);
    if cs.len() == 0 {
        assert(st.data.texture + cs =~= st.data.texture);
        assert(ObjDataView { texture: st.data.texture + cs, ..st.data } == st.data);
        assert(steps(st, ls, k, strict) == Ok::<_, ObjErrorView>(st));
    } else {
        let p = cs.drop_last();
        assert(coords_ok(p, 2)) by {
            assert forall|i: int| 0 <= i < p.len() implies (#[trigger] p[i]).len() == 2 && forall|j: int|
                0 <= j < 2 ==> is_float_lit(#[trigger] p[i][j]) by {
                assert(p[i] == cs[i]);
            }
        }
        lemma_steps_texture(st, p, k, strict);
        assert(ls.drop_last() =~= coord_seq("vt"@, p));
        let c = cs.last();
        assert(c == cs[cs.len() - 1]);
        lemma_coord_words("vt"@, c, 2, (k + ls.len() - 1) as nat);
        assert(ls.last() == "vt"@ + spaced(c));
        let w = seq!["vt"@] + c;
        assert(w.drop_first() =~= c);
        assert(st.data.texture + p + seq![c] =~= st.data.texture + cs);
        let s1 = with_data(st, ObjDataView { texture: st.data.texture + p, ..st.data });
        assert(steps(st, ls.drop_last(), k, strict) == Ok::<_, ObjErrorView>(s1));
        assert(words_of(ls.last()) == w);
        assert(w[0] == "vt"@);
        let s2 = obj_step(s1, ls.last(), (k + ls.len() - 1) as nat, strict);
        assert(s2 == Ok::<_, ObjErrorView>(
            with_data(s1, ObjDataView { texture: s1.data.texture.push(c), ..s1.data }),
        ));
        assert(s1.data.texture.push(c) =~= st.data.texture + cs);
    }
}

proof fn lemma_steps_normal(st: ObjState, cs: Seq<Seq<Seq<char>>>, k: nat, strict: bool)
    requires
        coords_ok(cs, 3),
    ensures
        steps(st, coord_seq("vn"@, cs), k, strict) == Ok::<_, ObjErrorView>(
            with_data(st, ObjDataView { normal: st.data.normal + cs, ..st.data }),
        ),
    decreases cs.len(),
{
    lemma_keywords();
    let ls = coord_seq("vn"@, cs);
    if cs.len() == 0 {
        assert(st.data.normal + cs =~= st.data.normal);
        assert(ObjDataView { normal: st.data.normal + cs, ..st.data } == st.data);
        assert(steps(st, ls, k, strict) == Ok::<_, ObjErrorView>(st));
    } else {
        let p = cs.drop_last();
        assert(coords_ok(p, 3)) by {
            assert forall|i: int| 0 <= i < p.len() implies (#[trigger] p[i]).len() == 3 && forall|j: int|
                0 <= j < 3 ==> is_float_lit(#[trigger] p[i][j]) by {
                assert(p[i] == cs[i]);
            }
        }
        lemma_steps_normal(st, p, k, strict);
        assert(ls.drop_last() =~= coord_seq("vn"@, p));
        let c = cs.last();
        assert(c == cs[cs.len() - 1]);
        lemma_coord_words("vn"@, c, 3, (k + ls.len() - 1) as nat);
        assert(ls.last() == "vn"@ + spaced(c));
        let w = seq!["vn"@] + c;
        assert(w.drop_first() =~= c);
        assert(st.data.normal + p + seq![c] =~= st.data.normal + cs);
        let s1 = with_data(st, ObjDataView { normal: st.data.normal + p, ..st.data });
        assert(steps(st, ls.drop_last(), k, strict) == Ok::<_, ObjErrorView>(s1));
        assert(words_of(ls.last()) == w);
        assert(w[0] == "vn"@);
        let s2 = obj_step(s1, ls.last(), (k + ls.len() - 1) as nat, strict);
        assert(s2 == Ok::<_, ObjErrorView>(
            with_data(s1, ObjDataView { normal: s1.data.normal.push(c), ..s1.data }),
        ));
        assert(s1.data.normal.push(c) =~= st.data.normal + cs);
    }
}

pub proof fn lemma_free_concat(a: Seq<char>, b: Seq<char>, c: char)
    requires
        free_of(a, c),
        free_of(b, c),
    ensures
        free_of(a + b, c),
{
    assert forall|i: int| 0 <= i < (a + b).len() implies #[trigger] (a + b)[i] != c by {
        if i < a.len() {
            assert((a + b)[i] == a[i]);
        } else {
            assert((a + b)[i] == b[i - a.len()]);
        }
    }
}

/// Every line of `ls` is free of line feeds.
pub open spec fn all_free(ls: Seq<Seq<char>>) -> bool {
    forall|i: int| 0 <= i < ls.len() ==> free_of(#[trigger] ls[i], '\n')
}

pub proof fn lemma_all_free_concat(a: Seq<Seq<char>>, b: Seq<Seq<char>>)
    requires
        all_free(a),
        all_free(b),
    ensures
        all_free(a + b),
{
    assert forall|i: int| 0 <= i < (a + b).len() implies free_of(#[trigger] (a + b)[i], '\n') by {
        if i < a.len() {
            assert((a + b)[i] == a[i]);
        } else {
            assert((a + b)[i] == b[i - a.len()]);
        }
    }
}

pub open spec fn tuple_texts(p: Seq<IndexTuple>) -> Seq<Seq<char>> {
    Seq::new(p.len(), |i: int| tuple_text(p[i]))
}

pub open spec fn poly_line(p: Seq<IndexTuple>) -> Seq<char> {
    "f"@ + spaced(tuple_texts(p))
}

pub open spec fn poly_seq(ps: Seq<Seq<IndexTuple>>) -> Seq<Seq<char>> {
    Seq::new(ps.len(), |i: int| poly_line(ps[i]))
}

/// Polygons of at least three vertices whose indices can be written and read back.
pub open spec fn polys_ok(ps: Seq<Seq<IndexTuple>>, np: nat, nt: nat, nn: nat) -> bool {
    forall|i: int|
        0 <= i < ps.len() ==> (#[trigger] ps[i]).len() >= 3 && forall|j: int|
            0 <= j < ps[i].len() ==> tuple_ok(#[trigger] ps[i][j], np, nt, nn)
}

pub proof fn lemma_joined_one(l: Seq<char>)
    ensures
        joined(seq![l]) == l + "\n"@,
{
    assert(seq![l].drop_last() =~= Seq::<Seq<char>>::empty());
    assert(seq![l].last() == l);
    assert(joined(Seq::<Seq<char>>::empty()) == Seq::<char>::empty());
    assert(Seq::<char>::empty() + l + "\n"@ =~= l + "\n"@);
}

proof fn lemma_polys_text(ps: Seq<Seq<IndexTuple>>)
    ensures
        polys_text(ps) == joined(poly_seq(ps)),
    decreases ps.len(),
{
    if ps.len() == 0 {
        assert(poly_seq(ps) =~= Seq::<Seq<char>>::empty());
    } else {
        lemma_polys_text(ps.drop_last());
        assert(poly_seq(ps).drop_last() =~= poly_seq(ps.drop_last()));
        assert(polys_text(ps) =~= joined(poly_seq(ps)));
    }
}

proof fn lemma_face(p: Seq<IndexTuple>, np: nat, nt: nat, nn: nat, ln: nat)
    requires
        forall|j: int| 0 <= j < p.len() ==> tuple_ok(#[trigger] p[j], np, nt, nn),
    ensures
        face_spec(tuple_texts(p), np, nt, nn, ln) == Ok::<_, ObjErrorView>(p),
    decreases p.len(),
{
    if p.len() == 0 {
        assert(tuple_texts(p) =~= Seq::<Seq<char>>::empty());
        assert(p =~= Seq::<IndexTuple>::empty());
    } else {
        lemma_face(p.drop_last(), np, nt, nn, ln);
        assert(tuple_texts(p).drop_last() =~= tuple_texts(p.drop_last()));
        lemma_tuple_resolves(p.last(), np, nt, nn, ln);
        assert(p.drop_last().push(p.last()) =~= p);
    }
}

proof fn lemma_poly_line(p: Seq<IndexTuple>)
    ensures
        words_of(poly_line(p)) == seq!["f"@] + tuple_texts(p),
        free_of(poly_line(p), '\n'),
{
    lemma_keywords();
    assert forall|j: int| 0 <= j < tuple_texts(p).len() implies is_word(
        #[trigger] tuple_texts(p)[j],
    ) by {
        lemma_tuple_word(p[j]);
    }
    lemma_words_spaced("f"@, tuple_texts(p));
    lemma_spaced_free("f"@, tuple_texts(p));
}

proof fn lemma_steps_polys(st: ObjState, ps: Seq<Seq<IndexTuple>>, k: nat, strict: bool)
    requires
        st.group is Some,
        polys_ok(ps, st.data.position.len(), st.data.texture.len(), st.data.normal.len()),
    ensures
        steps(st, poly_seq(ps), k, strict) == Ok::<_, ObjErrorView>(
            ObjState {
                data: st.data,
                object: st.object,
                group: Some(GroupView { polys: st.group->0.polys + ps, ..st.group->0 }),
            },
        ),
        all_free(poly_seq(ps)),
    decreases ps.len(),
{
    lemma_keywords();
    let g = st.group->0;
    let ls = poly_seq(ps);
    if ps.len() == 0 {
        assert(g.polys + ps =~= g.polys);
        assert(GroupView { polys: g.polys + ps, ..g } == g);
        assert(ls =~= Seq::<Seq<char>>::empty());
    } else {
        let q = ps.drop_last();
        let (np, nt, nn) = (st.data.position.len(), st.data.texture.len(), st.data.normal.len());
        assert(polys_ok(q, np, nt, nn)) by {
            assert forall|i: int| 0 <= i < q.len() implies (#[trigger] q[i]).len() >= 3 && forall|j: int|
                0 <= j < q[i].len() ==> tuple_ok(#[trigger] q[i][j], np, nt, nn) by {
                assert(q[i] == ps[i]);
            }
        }
        lemma_steps_polys(st, q, k, strict);
        assert(ls.drop_last() =~= poly_seq(q));
        let p = ps.last();
        assert(p == ps[ps.len() - 1]);
        lemma_poly_line(p);
        let s1 = ObjState {
            data: st.data,
            object: st.object,
            group: Some(GroupView { polys: g.polys + q, ..g }),
        };
        let w = seq!["f"@] + tuple_texts(p);
        let ln = (k + ls.len() - 1) as nat;
        assert(w.drop_first() =~= tuple_texts(p));
        lemma_face(p, s1.data.position.len(), s1.data.texture.len(), s1.data.normal.len(), ln);
        assert(w[0] == "f"@);
        lemma_keywords_distinct();
        assert(words_of(ls.last()) == w);
        assert(obj_step(s1, ls.last(), ln, strict) == Ok::<_, ObjErrorView>(
            ObjState {
                data: st.data,
                object: st.object,
                group: Some(GroupView { polys: (g.polys + q).push(p), ..g }),
            },
        ));
        assert((g.polys + q).push(p) =~= g.polys + ps);
        assert forall|i: int| 0 <= i < ls.len() implies free_of(#[trigger] ls[i], '\n') by {
            if i < ls.len() - 1 {
                assert(ls[i] == poly_seq(q)[i]);
            }
        }
    }
}

pub open spec fn group_seq(g: GroupView) -> Seq<Seq<char>> {
    (if g.index == 0 {
        seq!["g "@ + g.name]
    } else {
        Seq::empty()
    }) + (match g.material {
        Some(m) => seq!["usemtl "@ + material_name(m)],
        None => Seq::empty(),
    }) + poly_seq(g.polys)
}

proof fn lemma_group_text(g: GroupView)
    ensures
        group_text(g) == joined(group_seq(g)),
{
    let a: Seq<Seq<char>> = if g.index == 0 {
        seq!["g "@ + g.name]
    } else {
        Seq::empty()
    };
    let b: Seq<Seq<char>> = match g.material {
        Some(m) => seq!["usemtl "@ + material_name(m)],
        None => Seq::empty(),
    };
    lemma_joined_append(a + b, poly_seq(g.polys));
    lemma_joined_append(a, b);
    lemma_polys_text(g.polys);
    if g.index == 0 {
        lemma_joined_one("g "@ + g.name);
    }
    match g.material {
        Some(m) => {
            lemma_joined_one("usemtl "@ + material_name(m));
        },
        None => {},
    }
    assert(joined(Seq::<Seq<char>>::empty()) == Seq::<char>::empty());
    assert(group_text(g) =~= joined(group_seq(g)));
}

/// A group that can be written and read back: a proper name, a material named by one word
/// where it has one, and polygons that can be written.
pub open spec fn group_ok(g: GroupView, np: nat, nt: nat, nn: nat) -> bool {
    &&& name_ok(g.name)
    &&& (g.material matches Some(m) ==> (m matches ObjMaterialView::Ref(r) && is_word(r)))
    &&& polys_ok(g.polys, np, nt, nn)
    &&& (g.index > 0 ==> g.material is Some)
}

/// `g` can follow the state's pending group `prev`: it has index 0, or it continues `prev`
/// under another material.
pub open spec fn continues(prev: Option<GroupView>, g: GroupView) -> bool {
    g.index == 0 || (prev matches Some(p) && p.material is Some && p.name == g.name && g.index
        == p.index + 1)
}

/// A name that an `o` or `g` line gives back: not empty, without white space at either end,
/// and without line feeds.
pub open spec fn name_ok(s: Seq<char>) -> bool {
    &&& s.len() > 0
    &&& !is_ws(s[0])
    &&& !is_ws(s.last())
    &&& free_of(s, '\n')
}

/// The line of the one-character command `kw` followed by a space and `name` gives `name`.
proof fn lemma_name_line(kw: Seq<char>, name: Seq<char>)
    requires
        kw.len() == 1,
        is_word(kw),
        name_ok(name),
    ensures
        name_text(kw + " "@ + name) == Some(name),
        free_of(kw + " "@ + name, '\n'),
{
    lemma_space();
    let line = kw + " "@ + name;
    assert(line[0] == kw[0]);
    assert(line[1] == ' ');
    lemma_lead_ws(line, 0);
    assert(line.skip(0) =~= line);
    lemma_lead_word(line, 1);
    let r = line.skip(1);
    assert(r =~= seq![' '] + name);
    assert(after_command(line) == r);
    assert(r[1] == name[0]);
    lemma_lead_ws(r, 1);
    assert(r.skip(1) =~= name);
    lemma_trail_ws(name, 0);
    assert(name.take(name.len() as int) =~= name);
    assert(trim(r) == name);
    lemma_prefixed_free(kw, name);
}

pub proof fn lemma_name_words(name: Seq<char>)
    requires
        is_name(name),
    ensures
        join_words(words_of(name)) == name,
        words_of(name).len() > 0,
        free_of(name, '\n'),
{
    lemma_name_free(name);
}

pub proof fn lemma_prefixed_free(kw: Seq<char>, rest: Seq<char>)
    requires
        is_word(kw),
        free_of(rest, '\n'),
    ensures
        free_of(kw + " "@ + rest, '\n'),
{
    lemma_space();
    lemma_free_ws(kw);
    assert(free_of(" "@, '\n'));
    lemma_free_concat(kw, " "@, '\n');
    lemma_free_concat(kw + " "@, rest, '\n');
}

proof fn lemma_steps_group(st: ObjState, g: GroupView, k: nat, strict: bool)
    requires
        group_ok(g, st.data.position.len(), st.data.texture.len(), st.data.normal.len()),
        continues(st.group, g),
    ensures
        steps(st, group_seq(g), k, strict) == Ok::<_, ObjErrorView>(
            ObjState { data: st.data, object: close_group(st.object, st.group), group: Some(g) },
        ),
        all_free(group_seq(g)),
{
    lemma_keywords();
    lemma_keywords_distinct();
    let a: Seq<Seq<char>> = if g.index == 0 {
        seq!["g "@ + g.name]
    } else {
        Seq::empty()
    };
    let b: Seq<Seq<char>> = match g.material {
        Some(m) => seq!["usemtl "@ + material_name(m)],
        None => Seq::empty(),
    };
    assert(group_seq(g) == a + b + poly_seq(g.polys));
    lemma_steps_append(st, a + b, poly_seq(g.polys), k, strict);
    lemma_steps_append(st, a, b, k, strict);
    assert(is_word("g"@));
    assert(is_word("usemtl"@));
    // After the `g` line, if any.
    let s1 = if g.index == 0 {
        ObjState {
            data: st.data,
            object: close_group(st.object, st.group),
            group: Some(new_group(g.name)),
        }
    } else {
        st
    };
    if g.index == 0 {
        lemma_steps_one(st, "g "@ + g.name, k, strict);
        assert("g "@ + g.name == "g"@ + " "@ + g.name);
        lemma_words_keyword("g"@, g.name);
        lemma_name_line("g"@, g.name);
        assert(steps(st, a, k, strict) == Ok::<_, ObjErrorView>(s1));
        lemma_prefixed_free("g"@, g.name);
    } else {
        assert(a =~= Seq::<Seq<char>>::empty());
    }
    // After the `usemtl` line, if any: the pending group carries the material.
    let pending = match s1.group {
        Some(x) => x,
        None => new_group(g.name),
    };
    let s2 = match g.material {
        Some(m) => if g.index == 0 {
            ObjState {
                data: st.data,
                object: s1.object,
                group: Some(GroupView { material: Some(m), ..new_group(g.name) }),
            }
        } else {
            ObjState {
                data: st.data,
                object: close_group(st.object, st.group),
                group: Some(
                    GroupView { name: g.name, index: g.index, material: Some(m), polys: Seq::empty() },
                ),
            }
        },
        None => s1,
    };
    match g.material {
        Some(m) => {
            let r = material_name(m);
            lemma_steps_one(s1, "usemtl "@ + r, (k + a.len()) as nat, strict);
            assert("usemtl "@ + r == "usemtl"@ + " "@ + r);
            lemma_words_keyword("usemtl"@, r);
            lemma_words_word(r);
            let w = seq!["usemtl"@] + seq![r];
            assert(w.drop_first() =~= seq![r]);
            assert(words_of("usemtl "@ + r) == w);
            assert(steps(s1, b, (k + a.len()) as nat, strict) == Ok::<_, ObjErrorView>(s2));
            lemma_free_ws(r);
            lemma_prefixed_free("usemtl"@, r);
        },
        None => {
            assert(b =~= Seq::<Seq<char>>::empty());
        },
    }
    assert(steps(st, a + b, k, strict) == Ok::<_, ObjErrorView>(s2));
    lemma_steps_polys(s2, g.polys, (k + (a + b).len()) as nat, strict);
    assert(Seq::<Seq<IndexTuple>>::empty() + g.polys =~= g.polys);
    assert(s2.group->0.polys =~= Seq::<Seq<IndexTuple>>::empty());
    assert(GroupView { polys: s2.group->0.polys + g.polys, ..s2.group->0 } == g);
    assert(all_free(a));
    assert(all_free(b));
    lemma_all_free_concat(a, b);
    lemma_all_free_concat(a + b, poly_seq(g.polys));
}

pub open spec fn groups_seq(gs: Seq<GroupView>) -> Seq<Seq<char>>
    decreases gs.len(),
{
    if gs.len() == 0 {
        Seq::empty()
    } else {
        groups_seq(gs.drop_last()) + group_seq(gs.last())
    }
}

proof fn lemma_groups_text(gs: Seq<GroupView>)
    ensures
        groups_text(gs) == joined(groups_seq(gs)),
    decreases gs.len(),
{
    if gs.len() > 0 {
        lemma_groups_text(gs.drop_last());
        lemma_group_text(gs.last());
        lemma_joined_append(groups_seq(gs.drop_last()), group_seq(gs.last()));
    }
}

/// Groups that can be written and read back, in order: the first with index 0, and each
/// continuing the one before where its index is above 0.
pub open spec fn groups_ok(gs: Seq<GroupView>, np: nat, nt: nat, nn: nat) -> bool {
    &&& forall|i: int| 0 <= i < gs.len() ==> group_ok(#[trigger] gs[i], np, nt, nn)
    &&& (gs.len() > 0 ==> gs[0].index == 0)
    &&& forall|i: int| 0 < i < gs.len() ==> continues(Some(gs[i - 1]), #[trigger] gs[i])
}

/// The state after the groups `gs` are read from `st`, the last one still pending.
pub open spec fn after_groups(st: ObjState, gs: Seq<GroupView>) -> ObjState {
    if gs.len() == 0 {
        st
    } else {
        ObjState {
            data: st.data,
            object: ObjectView { name: st.object.name, groups: st.object.groups + gs.drop_last() },
            group: Some(gs.last()),
        }
    }
}

proof fn lemma_steps_groups(st: ObjState, gs: Seq<GroupView>, k: nat, strict: bool)
    requires
        st.group is None,
        groups_ok(gs, st.data.position.len(), st.data.texture.len(), st.data.normal.len()),
    ensures
        steps(st, groups_seq(gs), k, strict) == Ok::<_, ObjErrorView>(after_groups(st, gs)),
        all_free(groups_seq(gs)),
    decreases gs.len(),
{
    if gs.len() > 0 {
        let p = gs.drop_last();
        let g = gs.last();
        let (np, nt, nn) = (st.data.position.len(), st.data.texture.len(), st.data.normal.len());
        assert(groups_ok(p, np, nt, nn)) by {
            assert forall|i: int| 0 < i < p.len() implies continues(
                Some(p[i - 1]),
                #[trigger] p[i],
            ) by {
                assert(p[i] == gs[i]);
                assert(p[i - 1] == gs[i - 1]);
            }
            assert forall|i: int| 0 <= i < p.len() implies group_ok(#[trigger] p[i], np, nt, nn) by {
                assert(p[i] == gs[i]);
            }
        }
        lemma_steps_groups(st, p, k, strict);
        let s1 = after_groups(st, p);
        lemma_steps_append(st, groups_seq(p), group_seq(g), k, strict);
        assert(group_ok(g, np, nt, nn)) by {
            assert(g == gs[gs.len() - 1]);
        }
        if p.len() == 0 {
            assert(g == gs[0]);
        } else {
            assert(continues(Some(gs[gs.len() - 2]), gs[gs.len() - 1]));
        }
        lemma_steps_group(s1, g, (k + groups_seq(p).len()) as nat, strict);
        assert(gs.drop_last() == p);
        let obj2 = close_group(s1.object, s1.group);
        if p.len() == 0 {
            assert(st.object.groups + gs.drop_last() =~= st.object.groups);
            assert(obj2 == st.object);
        } else {
            assert((st.object.groups + p.drop_last()).push(p.last()) =~= st.object.groups + p);
        }
        assert(obj2 == ObjectView { name: st.object.name, groups: st.object.groups + gs.drop_last() });
        lemma_all_free_concat(groups_seq(p), group_seq(g));
    } else {
        assert(groups_seq(gs) =~= Seq::<Seq<char>>::empty());
    }
}

pub open spec fn object_seq(o: ObjectView) -> Seq<Seq<char>> {
    (if o.name != default_name() {
        seq!["o "@ + o.name]
    } else {
        Seq::empty()
    }) + groups_seq(o.groups)
}

pub open spec fn objects_seq(os: Seq<ObjectView>) -> Seq<Seq<char>>
    decreases os.len(),
{
    if os.len() == 0 {
        Seq::empty()
    } else {
        objects_seq(os.drop_last()) + object_seq(os.last())
    }
}

proof fn lemma_objects_text(os: Seq<ObjectView>)
    ensures
        objects_text(os) == joined(objects_seq(os)),
    decreases os.len(),
{
    if os.len() > 0 {
        let o = os.last();
        lemma_objects_text(os.drop_last());
        lemma_groups_text(o.groups);
        let a: Seq<Seq<char>> = if o.name != default_name() {
            seq!["o "@ + o.name]
        } else {
            Seq::empty()
        };
        lemma_joined_append(a, groups_seq(o.groups));
        if o.name != default_name() {
            lemma_joined_one("o "@ + o.name);
        }
        assert(joined(Seq::<Seq<char>>::empty()) == Seq::<char>::empty());
        assert(object_text(o) =~= joined(object_seq(o)));
        lemma_joined_append(objects_seq(os.drop_last()), object_seq(o));
    }
}

/// The state while object `o` is being read, what came before it complete in `d`.
pub open spec fn open_object(d: ObjDataView, o: ObjectView) -> ObjState {
    after_groups(ObjState { data: d, object: ObjectView { name: o.name, groups: Seq::empty() }, group: None }, o.groups)
}

proof fn lemma_close_open(d: ObjDataView, o: ObjectView)
    ensures
        close_group(open_object(d, o).object, open_object(d, o).group) == o,
        open_object(d, o).data == d,
{
    if o.groups.len() > 0 {
        assert(Seq::<GroupView>::empty() + o.groups.drop_last() =~= o.groups.drop_last());
        assert(o.groups.drop_last().push(o.groups.last()) =~= o.groups);
    } else {
        assert(o.groups =~= Seq::<GroupView>::empty());
    }
}

/// Objects that can be written and read back: the first is the default one, the others are
/// named otherwise, and their groups can be written.
pub open spec fn objects_ok(os: Seq<ObjectView>, np: nat, nt: nat, nn: nat) -> bool {
    &&& os.len() > 0
    &&& os[0].name == default_name()
    &&& forall|i: int| 0 < i < os.len() ==> (#[trigger] os[i]).name != default_name() && name_ok(os[i].name)
    &&& forall|i: int| 0 <= i < os.len() ==> groups_ok(#[trigger] os[i].groups, np, nt, nn)
}

proof fn lemma_object_step(s1: ObjState, o: ObjectView, k1: nat, strict: bool)
    requires
        o.name != default_name(),
        name_ok(o.name),
        groups_ok(o.groups, s1.data.position.len(), s1.data.texture.len(), s1.data.normal.len()),
    ensures
        steps(s1, object_seq(o), k1, strict) == Ok::<_, ObjErrorView>(
            open_object(
                ObjDataView {
                    objects: s1.data.objects.push(close_group(s1.object, s1.group)),
                    ..s1.data
                },
                o,
            ),
        ),
        all_free(object_seq(o)),
{
    lemma_keywords();
    lemma_keywords_distinct();
    let a = seq!["o "@ + o.name];
    assert(object_seq(o) == a + groups_seq(o.groups));
    lemma_steps_append(s1, a, groups_seq(o.groups), k1, strict);
    lemma_steps_one(s1, "o "@ + o.name, k1, strict);
    assert("o "@ + o.name == "o"@ + " "@ + o.name);
    assert(is_word("o"@));
    lemma_words_keyword("o"@, o.name);
    lemma_name_line("o"@, o.name);
    let d2 = ObjDataView {
        objects: s1.data.objects.push(close_group(s1.object, s1.group)),
        ..s1.data
    };
    let s2 = ObjState {
        data: d2,
        object: ObjectView { name: o.name, groups: Seq::empty() },
        group: None,
    };
    assert(obj_step(s1, "o "@ + o.name, k1, strict) == Ok::<_, ObjErrorView>(s2));
    lemma_steps_groups(s2, o.groups, k1 + 1, strict);
    lemma_prefixed_free("o"@, o.name);
    assert(all_free(a));
    lemma_all_free_concat(a, groups_seq(o.groups));
}

proof fn lemma_steps_objects(d: ObjDataView, os: Seq<ObjectView>, k: nat, strict: bool)
    requires
        objects_ok(os, d.position.len(), d.texture.len(), d.normal.len()),
        d.objects.len() == 0,
    ensures
        steps(
            ObjState { data: d, object: ObjectView { name: default_name(), groups: Seq::empty() }, group: None },
            objects_seq(os),
            k,
            strict,
        ) == Ok::<_, ObjErrorView>(open_object(ObjDataView { objects: os.drop_last(), ..d }, os.last())),
        all_free(objects_seq(os)),
    decreases os.len(),
{
    lemma_keywords();
    lemma_keywords_distinct();
    let st0 = ObjState { data: d, object: ObjectView { name: default_name(), groups: Seq::empty() }, group: None };
    let o = os.last();
    let (np, nt, nn) = (d.position.len(), d.texture.len(), d.normal.len());
    assert(groups_ok(o.groups, np, nt, nn)) by {
        assert(o == os[os.len() - 1]);
    }
    if os.len() == 1 {
        assert(os.drop_last() =~= Seq::<ObjectView>::empty());
        assert(objects_seq(os.drop_last()) =~= Seq::<Seq<char>>::empty());
        assert(o == os[0]);
        assert(object_seq(o) =~= groups_seq(o.groups));
        assert(objects_seq(os) =~= groups_seq(o.groups));
        lemma_steps_groups(st0, o.groups, k, strict);
        assert(d.objects =~= os.drop_last());
        assert(ObjDataView { objects: os.drop_last(), ..d } == d);
    } else {
        let p = os.drop_last();
        assert(objects_ok(p, np, nt, nn)) by {
            assert(p[0] == os[0]);
            assert forall|i: int| 0 < i < p.len() implies (#[trigger] p[i]).name != default_name() && name_ok(p[i].name) by {
                assert(p[i] == os[i]);
            }
            assert forall|i: int| 0 <= i < p.len() implies groups_ok(#[trigger] p[i].groups, np, nt, nn) by {
                assert(p[i] == os[i]);
            }
        }
        lemma_steps_objects(d, p, k, strict);
        let dp = ObjDataView { objects: p.drop_last(), ..d };
        let s1 = open_object(dp, p.last());
        lemma_close_open(dp, p.last());
        assert(o.name != default_name() && name_ok(o.name)) by {
            assert(o == os[os.len() - 1]);
        }
        lemma_steps_append(st0, objects_seq(p), object_seq(o), k, strict);
        let k1 = (k + objects_seq(p).len()) as nat;
        lemma_object_step(s1, o, k1, strict);
        assert(p.drop_last().push(p.last()) =~= p);
        assert(ObjDataView { objects: s1.data.objects.push(close_group(s1.object, s1.group)), ..s1.data }
            == ObjDataView { objects: os.drop_last(), ..d });
        lemma_all_free_concat(objects_seq(p), object_seq(o));
    }
}

pub open spec fn lib_seq(ls: Seq<crate::mtl::MtlView>) -> Seq<Seq<char>> {
    Seq::new(ls.len(), |i: int| "mtllib "@ + ls[i].filename)
}

proof fn lemma_libs_text(ls: Seq<crate::mtl::MtlView>)
    ensures
        libs_text(ls) == joined(lib_seq(ls)),
    decreases ls.len(),
{
    if ls.len() == 0 {
        assert(lib_seq(ls) =~= Seq::<Seq<char>>::empty());
    } else {
        lemma_libs_text(ls.drop_last());
        assert(lib_seq(ls).drop_last() =~= lib_seq(ls.drop_last()));
        assert(libs_text(ls) =~= joined(lib_seq(ls)));
    }
}

/// Libraries named by proper names, with no materials loaded.
pub open spec fn libs_ok(ls: Seq<crate::mtl::MtlView>) -> bool {
    forall|i: int|
        0 <= i < ls.len() ==> is_name((#[trigger] ls[i]).filename) && ls[i].materials.len() == 0
}

proof fn lemma_steps_libs(st: ObjState, ls: Seq<crate::mtl::MtlView>, k: nat, strict: bool)
    requires
        libs_ok(ls),
    ensures
        steps(st, lib_seq(ls), k, strict) == Ok::<_, ObjErrorView>(
            with_data(st, ObjDataView { material_libs: st.data.material_libs + ls, ..st.data }),
        ),
        all_free(lib_seq(ls)),
    decreases ls.len(),
{
    lemma_keywords();
    lemma_keywords_distinct();
    let q = lib_seq(ls);
    if ls.len() == 0 {
        assert(st.data.material_libs + ls =~= st.data.material_libs);
        assert(ObjDataView { material_libs: st.data.material_libs + ls, ..st.data } == st.data);
        assert(q =~= Seq::<Seq<char>>::empty());
    } else {
        let p = ls.drop_last();
        let l = ls.last();
        assert(libs_ok(p)) by {
            assert forall|i: int| 0 <= i < p.len() implies is_name((#[trigger] p[i]).filename)
                && p[i].materials.len() == 0 by {
                assert(p[i] == ls[i]);
            }
        }
        assert(is_name(l.filename) && l.materials.len() == 0) by {
            assert(l == ls[ls.len() - 1]);
        }
        lemma_steps_libs(st, p, k, strict);
        assert(q.drop_last() =~= lib_seq(p));
        let s1 = with_data(st, ObjDataView { material_libs: st.data.material_libs + p, ..st.data });
        assert(q.last() == "mtllib "@ + l.filename);
        assert("mtllib "@ + l.filename == "mtllib"@ + " "@ + l.filename);
        assert(is_word("mtllib"@));
        lemma_words_keyword("mtllib"@, l.filename);
        lemma_name_words(l.filename);
        let w = seq!["mtllib"@] + words_of(l.filename);
        assert(w.drop_first() =~= words_of(l.filename));
        assert(l.materials =~= Seq::<crate::mtl::MaterialView>::empty());
        let lv = crate::mtl::MtlView { filename: l.filename, materials: Seq::empty() };
        assert(lv == l);
        assert((st.data.material_libs + p).push(l) =~= st.data.material_libs + ls);
        lemma_prefixed_free("mtllib"@, l.filename);
        assert forall|i: int| 0 <= i < q.len() implies free_of(#[trigger] q[i], '\n') by {
            if i < q.len() - 1 {
                assert(q[i] == lib_seq(p)[i]);
            }
        }
    }
}

proof fn lemma_coords_free(kw: Seq<char>, cs: Seq<Seq<Seq<char>>>, n: nat)
    requires
        is_word(kw),
        coords_ok(cs, n),
    ensures
        all_free(coord_seq(kw, cs)),
{
    assert forall|i: int| 0 <= i < coord_seq(kw, cs).len() implies free_of(
        #[trigger] coord_seq(kw, cs)[i],
        '\n',
    ) by {
        lemma_coord_words(kw, cs[i], n, 0);
    }
}

/// `.obj` contents that can be written and read back: numbers as their text, objects whose
/// names and groups can be written, and libraries named by proper names with no material
/// loaded, as reading gives them.
pub open spec fn data_ok(d: ObjDataView) -> bool {
    &&& coords_ok(d.position, 3)
    &&& coords_ok(d.texture, 2)
    &&& coords_ok(d.normal, 3)
    &&& objects_ok(d.objects, d.position.len(), d.texture.len(), d.normal.len())
    &&& libs_ok(d.material_libs)
}

pub open spec fn data_seq(d: ObjDataView) -> Seq<Seq<char>> {
    coord_seq("v"@, d.position) + coord_seq("vt"@, d.texture) + coord_seq("vn"@, d.normal)
        + objects_seq(d.objects) + lib_seq(d.material_libs)
}

proof fn lemma_data_lines(d: ObjDataView)
    requires
        data_ok(d),
    ensures
        lines_of(data_text(d)) == data_seq(d).push(Seq::<char>::empty()),
{
    lemma_keywords();
    let cv = coord_seq("v"@, d.position);
    let ct = coord_seq("vt"@, d.texture);
    let cn = coord_seq("vn"@, d.normal);
    let os = objects_seq(d.objects);
    let ls = lib_seq(d.material_libs);
    lemma_coord_text("v"@, d.position);
    lemma_coord_text("vt"@, d.texture);
    lemma_coord_text("vn"@, d.normal);
    lemma_objects_text(d.objects);
    lemma_libs_text(d.material_libs);
    lemma_joined_append(cv, ct);
    lemma_joined_append(cv + ct, cn);
    lemma_joined_append(cv + ct + cn, os);
    lemma_joined_append(cv + ct + cn + os, ls);
    assert(data_text(d) == joined(data_seq(d)));
    assert(is_word("v"@) && is_word("vt"@) && is_word("vn"@));
    lemma_coords_free("v"@, d.position, 3);
    lemma_coords_free("vt"@, d.texture, 2);
    lemma_coords_free("vn"@, d.normal, 3);
    lemma_steps_objects(coords_read(d).data, d.objects, 0, true);
    lemma_steps_libs(initial_state(), d.material_libs, 0, true);
    lemma_all_free_concat(cv, ct);
    lemma_all_free_concat(cv + ct, cn);
    lemma_all_free_concat(cv + ct + cn, os);
    lemma_all_free_concat(cv + ct + cn + os, ls);
    lemma_lines_joined(data_seq(d));
}

/// The state once the coordinate lines of `d` are read.
pub open spec fn coords_read(d: ObjDataView) -> ObjState {
    ObjState {
        data: ObjDataView {
            position: d.position,
            texture: d.texture,
            normal: d.normal,
            ..empty_data()
        },
        object: initial_state().object,
        group: None,
    }
}

proof fn lemma_read_coords(d: ObjDataView, strict: bool)
    requires
        data_ok(d),
    ensures
        steps(
            initial_state(),
            coord_seq("v"@, d.position) + coord_seq("vt"@, d.texture) + coord_seq("vn"@, d.normal),
            0,
            strict,
        ) == Ok::<_, ObjErrorView>(coords_read(d)),
{
    let st0 = initial_state();
    let d0 = empty_data();
    let cv = coord_seq("v"@, d.position);
    let ct = coord_seq("vt"@, d.texture);
    let cn = coord_seq("vn"@, d.normal);
    lemma_steps_position(st0, d.position, 0, strict);
    let st1 = with_data(st0, ObjDataView { position: d0.position + d.position, ..d0 });
    lemma_steps_texture(st1, d.texture, cv.len(), strict);
    let st2 = with_data(st1, ObjDataView { texture: d0.texture + d.texture, ..st1.data });
    lemma_steps_normal(st2, d.normal, (cv.len() + ct.len()) as nat, strict);
    assert(d0.position + d.position =~= d.position);
    assert(d0.texture + d.texture =~= d.texture);
    assert(d0.normal + d.normal =~= d.normal);
    assert(with_data(st2, ObjDataView { normal: d0.normal + d.normal, ..st2.data }) == coords_read(d));
    lemma_steps_append(st0, cv, ct, 0, strict);
    lemma_steps_append(st0, cv + ct, cn, 0, strict);
}

proof fn lemma_read_lines(d: ObjDataView, strict: bool)
    requires
        data_ok(d),
    ensures
        steps(initial_state(), data_seq(d), 0, strict) matches Ok(s) && finish(s) == d,
{
    let st0 = initial_state();
    let cv = coord_seq("v"@, d.position);
    let ct = coord_seq("vt"@, d.texture);
    let cn = coord_seq("vn"@, d.normal);
    let os = objects_seq(d.objects);
    let ls = lib_seq(d.material_libs);
    let st3 = coords_read(d);
    lemma_read_coords(d, strict);
    lemma_steps_objects(st3.data, d.objects, (cv.len() + ct.len() + cn.len()) as nat, strict);
    let dd = ObjDataView { objects: d.objects.drop_last(), ..st3.data };
    let so = open_object(dd, d.objects.last());
    lemma_steps_libs(so, d.material_libs, (cv.len() + ct.len() + cn.len() + os.len()) as nat, strict);
    lemma_steps_append(st0, cv + ct + cn, os, 0, strict);
    lemma_steps_append(st0, cv + ct + cn + os, ls, 0, strict);
    let sl = with_data(so, ObjDataView { material_libs: so.data.material_libs + d.material_libs, ..so.data });
    assert(steps(st0, data_seq(d), 0, strict) == Ok::<_, ObjErrorView>(sl));
    lemma_close_open(dd, d.objects.last());
    assert(d.objects.drop_last().push(d.objects.last()) =~= d.objects);
    assert(Seq::<crate::mtl::MtlView>::empty() + d.material_libs =~= d.material_libs);
    assert(finish(sl) == d);
}

/// Reading back what the writer writes of contents `d` gives `d`, under either setting of
/// `strict`.
pub proof fn round_trip(d: ObjDataView, strict: bool)
    requires
        data_ok(d),
    ensures
        obj_parse(data_text(d), strict) == Ok::<_, ObjErrorView>(d),
{
    let all = data_seq(d);
    lemma_data_lines(d);
    lemma_read_lines(d, strict);
    let sl = steps(initial_state(), all, 0, strict)->Ok_0;
    lemma_run_steps(all.push(Seq::<char>::empty()), strict);
    lemma_steps_append(initial_state(), all, seq![Seq::<char>::empty()], 0, strict);
    lemma_steps_one(sl, Seq::<char>::empty(), all.len(), strict);
    assert(words_of(Seq::<char>::empty()) =~= Seq::<Seq<char>>::empty());
    assert(all.push(Seq::<char>::empty()) =~= all + seq![Seq::<char>::empty()]);
}

} // verus!
