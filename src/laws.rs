//! Properties that relate several calls of the readers, the writers and the resolver.

use vstd::prelude::*;

use crate::mtl::{is_comment, MaterialView, MtlView};
use crate::obj::{
    coords_spec, face_spec, obj_parse, obj_run, obj_step, resolve_spec,
    ObjErrorView, ObjState,
};
use crate::resolve::{all_materials, find_first, loaded, loaded_materials};
use crate::obj::{normalize_spec, poly_spec, GroupView, IndexTuple};
use crate::text::{int_within, pieces};
use crate::text::{lines_of, words_of};

verus! {

proof fn lemma_find_first_append(a: Seq<MaterialView>, b: Seq<MaterialView>, n: Seq<char>)
    requires
        find_first(a, n) is Some,
    ensures
        find_first(a + b, n) == find_first(a, n),
    decreases b.len(),
{
    if b.len() == 0 {
        assert(a + b =~= a);
    } else {
        assert((a + b).drop_last() =~= a + b.drop_last());
        lemma_find_first_append(a, b.drop_last(), n);
    }
}

/// Where two libraries both define a material named `n`, a group that names `n` is bound to
/// the definition of the library listed first.
pub proof fn first_library_wins(l1: MtlView, l2: MtlView, n: Seq<char>)
    requires
        exists|i: int| 0 <= i < l1.materials.len() && #[trigger] l1.materials[i].name == n,
    ensures
        find_first(all_materials(seq![l1, l2]), n) == find_first(l1.materials, n),
        find_first(l1.materials, n) matches Some(m) && m.name == n,
{
    let i = choose|i: int| 0 <= i < l1.materials.len() && #[trigger] l1.materials[i].name == n;
    lemma_find_first_some(l1.materials, n, i);
    assert(seq![l1, l2].drop_last() =~= seq![l1]);
    assert(seq![l1].drop_last() =~= Seq::<MtlView>::empty());
    assert(seq![l1].last() == l1);
    assert(seq![l1, l2].last() == l2);
    assert(all_materials(Seq::<MtlView>::empty()) =~= Seq::<MaterialView>::empty());
    assert(all_materials(seq![l1]) =~= l1.materials);
    lemma_find_first_append(l1.materials, l2.materials, n);
}

proof fn lemma_find_first_some(ms: Seq<MaterialView>, n: Seq<char>, i: int)
    requires
        0 <= i < ms.len(),
        ms[i].name == n,
    ensures
        find_first(ms, n) matches Some(m) && m.name == n,
    decreases ms.len(),
{
    lemma_find_first_named(ms, n);
    if i < ms.len() - 1 {
        assert(ms.drop_last()[i] == ms[i]);
        lemma_find_first_some(ms.drop_last(), n, i);
    } else {
        lemma_find_first_named(ms.drop_last(), n);
    }
}

proof fn lemma_find_first_named(ms: Seq<MaterialView>, n: Seq<char>)
    ensures
        find_first(ms, n) matches Some(m) ==> m.name == n,
    decreases ms.len(),
{
    if ms.len() > 0 {
        lemma_find_first_named(ms.drop_last(), n);
    }
}

/// A line whose command the `.obj` format does not know: neither blank nor a comment.
pub open spec fn extraneous(w: Seq<Seq<char>>) -> bool {
    &&& w.len() > 0
    &&& !is_comment(w[0])
    &&& !(w[0] == "v"@ || w[0] == "vt"@ || w[0] == "vn"@ || w[0] == "f"@ || w[0] == "o"@ || w[0]
        == "g"@ || w[0] == "mtllib"@ || w[0] == "usemtl"@ || w[0] == "s"@ || w[0] == "l"@)
}

/// The lines `ls` without the extraneous ones.
pub open spec fn without_extraneous(ls: Seq<Seq<char>>) -> Seq<Seq<char>>
    decreases ls.len(),
{
    if ls.len() == 0 {
        Seq::empty()
    } else if extraneous(words_of(ls.last())) {
        without_extraneous(ls.drop_last())
    } else {
        without_extraneous(ls.drop_last()).push(ls.last())
    }
}

/// The state that a result holds, whatever its error.
pub open spec fn ok_state(r: Result<ObjState, ObjErrorView>) -> Option<ObjState> {
    match r {
        Ok(st) => Some(st),
        Err(_) => None,
    }
}

proof fn lemma_face_line_free(
    fs: Seq<Seq<char>>,
    np: nat,
    nt: nat,
    nn: nat,
    a: nat,
    b: nat,
)
    ensures
        (face_spec(fs, np, nt, nn, a) is Ok) == (face_spec(fs, np, nt, nn, b) is Ok),
        face_spec(fs, np, nt, nn, a) is Ok ==> face_spec(fs, np, nt, nn, a) == face_spec(
            fs,
            np,
            nt,
            nn,
            b,
        ),
    decreases fs.len(),
{
    if fs.len() > 0 {
        lemma_face_line_free(fs.drop_last(), np, nt, nn, a, b);
        let x = resolve_spec(fs.last(), np, nt, nn, a);
        let y = resolve_spec(fs.last(), np, nt, nn, b);
        assert((x is Ok) == (y is Ok));
        assert(x is Ok ==> x == y);
    }
}

proof fn lemma_step_line_free(st: ObjState, line: Seq<char>, a: nat, b: nat, s1: bool, s2: bool)
    requires
        !extraneous(words_of(line)),
    ensures
        ok_state(obj_step(st, line, a, s1)) == ok_state(obj_step(st, line, b, s2)),
{
    let d = st.data;
    let w = words_of(line);
    let args = w.drop_first();
    lemma_face_line_free(args, d.position.len(), d.texture.len(), d.normal.len(), a, b);
    assert((coords_spec(args, 3, a) is Ok) == (coords_spec(args, 3, b) is Ok));
    assert((coords_spec(args, 2, a) is Ok) == (coords_spec(args, 2, b) is Ok));
}

proof fn lemma_toggle_run(ls: Seq<Seq<char>>)
    ensures
        ok_state(obj_run(ls, false)) == ok_state(obj_run(without_extraneous(ls), true)),
    decreases ls.len(),
{
    if ls.len() > 0 {
        let prev = ls.drop_last();
        lemma_toggle_run(prev);
        let w = words_of(ls.last());
        let f = without_extraneous(prev);
        if extraneous(w) {
            match obj_run(prev, false) {
                Ok(st) => {},
                Err(e) => {},
            }
        } else {
            let g = f.push(ls.last());
            assert(g.drop_last() =~= f);
            assert(g.last() == ls.last());
            match obj_run(prev, false) {
                Ok(st) => {
                    lemma_step_line_free(st, ls.last(), (ls.len() - 1) as nat, (g.len() - 1) as nat, false, true);
                },
                Err(e) => {},
            }
        }
    }
}

/// Reading with `strict` off gives the contents that reading the same text with its lines of
/// unknown commands removed gives with `strict` on; each fails where the other does.
pub proof fn permissive_skips_unknown_commands(text: Seq<char>, compliant: Seq<char>)
    requires
        lines_of(compliant) == without_extraneous(lines_of(text)),
    ensures
        (obj_parse(text, false) is Ok) == (obj_parse(compliant, true) is Ok),
        obj_parse(text, false) is Ok ==> obj_parse(text, false)->Ok_0 == obj_parse(
            compliant,
            true,
        )->Ok_0,
{
    lemma_toggle_run(lines_of(text));
}

/// With `strict` on, a line of an unknown command is an error that names the command and
/// its line.
pub proof fn strict_rejects_unknown_command(st: ObjState, line: Seq<char>, ln: nat)
    requires
        extraneous(words_of(line)),
    ensures
        obj_step(st, line, ln, true) == Err::<ObjState, _>(
            ObjErrorView::UnexpectedCommand { line_number: ln, command: words_of(line)[0] },
        ),
        obj_step(st, line, ln, false) == Ok::<_, ObjErrorView>(st),
{
}

/// Where two libraries load and the first defines a material named `n`, the materials that
/// groups are bound to take `n` from the first.
pub proof fn first_loaded_library_wins(
    c1: Option<Seq<char>>,
    c2: Option<Seq<char>>,
    n: Seq<char>,
)
    requires
        loaded(c1) matches Ok(ms) && exists|i: int|
            0 <= i < ms.len() && #[trigger] ms[i].name == n,
    ensures
        find_first(loaded_materials(seq![c1, c2]), n) == find_first(loaded(c1)->Ok_0, n),
        find_first(loaded(c1)->Ok_0, n) matches Some(m) && m.name == n,
{
    let ms1 = loaded(c1)->Ok_0;
    let i = choose|i: int| 0 <= i < ms1.len() && #[trigger] ms1[i].name == n;
    lemma_find_first_some(ms1, n, i);
    let cs = seq![c1, c2];
    assert(cs.drop_last() =~= seq![c1]);
    assert(seq![c1].drop_last() =~= Seq::<Option<Seq<char>>>::empty());
    assert(seq![c1].last() == c1);
    assert(cs.last() == c2);
    assert(loaded_materials(Seq::<Option<Seq<char>>>::empty()) =~= Seq::<MaterialView>::empty());
    assert(loaded_materials(seq![c1]) =~= ms1);
    let rest = match loaded(c2) {
        Ok(ms) => ms,
        Err(_) => Seq::<MaterialView>::empty(),
    };
    assert(loaded_materials(cs) == ms1 + rest);
    lemma_find_first_append(ms1, rest, n);
}

/// A vertex field whose position number is zero is an error that names its line.
pub proof fn zero_position_rejected(field: Seq<char>, np: nat, nt: nat, nn: nat, ln: nat)
    requires
        int_within(pieces(field, '/')[0], isize::MIN as int, isize::MAX as int) == Some(0int),
    ensures
        resolve_spec(field, np, nt, nn, ln) == Err::<IndexTuple, _>(
            ObjErrorView::ZeroVertexNumber { line_number: ln },
        ),
{
}

/// A negative position number `v` counts back from the `np` positions declared before the
/// face: it names position `np + v`, whatever is declared after.
pub proof fn relative_position(field: Seq<char>, np: nat, nt: nat, nn: nat, ln: nat, v: int)
    requires
        pieces(field, '/').len() == 1,
        int_within(pieces(field, '/')[0], isize::MIN as int, isize::MAX as int) == Some(v),
        v < 0,
        np + v >= 0,
    ensures
        resolve_spec(field, np, nt, nn, ln) == Ok::<_, ObjErrorView>(
            IndexTuple((np + v) as usize, None, None),
        ),
{
    assert(normalize_spec(v, np as int) == Some(np + v));
}

/// Reading the lines `ls` with `strict` on succeeds only where none of them is a line of an
/// unknown command.
pub proof fn strict_success_has_no_unknown_lines(ls: Seq<Seq<char>>)
    requires
        obj_run(ls, true) is Ok,
    ensures
        without_extraneous(ls) == ls,
        forall|i: int| 0 <= i < ls.len() ==> !extraneous(words_of(#[trigger] ls[i])),
    decreases ls.len(),
{
    if ls.len() > 0 {
        let p = ls.drop_last();
        if obj_run(p, true) is Err {
            assert(obj_run(ls, true) is Err);
        }
        strict_success_has_no_unknown_lines(p);
        let st = obj_run(p, true)->Ok_0;
        if extraneous(words_of(ls.last())) {
            strict_rejects_unknown_command(st, ls.last(), (ls.len() - 1) as nat);
        }
        assert(p.push(ls.last()) =~= ls);
        assert forall|i: int| 0 <= i < ls.len() implies !extraneous(words_of(#[trigger] ls[i])) by {
            if i < ls.len() - 1 {
                assert(ls[i] == p[i]);
            }
        }
    }
}

/// A text that reads with `strict` on reads to the same contents with `strict` off, and so
/// does any text made from it by adding lines of unknown commands.
pub proof fn unknown_lines_change_nothing(compliant: Seq<char>, extended: Seq<char>)
    requires
        obj_parse(compliant, true) is Ok,
        without_extraneous(lines_of(extended)) == lines_of(compliant),
    ensures
        obj_parse(compliant, false) == obj_parse(compliant, true),
        obj_parse(extended, false) == obj_parse(compliant, true),
{
    strict_success_has_no_unknown_lines(lines_of(compliant));
    permissive_skips_unknown_commands(compliant, compliant);
    permissive_skips_unknown_commands(extended, compliant);
}

/// The field `f` is the single negative number `v`, and `c + v` names one of `c` vertices.
pub open spec fn relative_field(f: Seq<char>, v: int, c: nat) -> bool {
    &&& pieces(f, '/').len() == 1
    &&& int_within(pieces(f, '/')[0], isize::MIN as int, isize::MAX as int) == Some(v)
    &&& v < 0
    &&& c + v >= 0
}

/// An `f` line whose fields are negative numbers `v` takes, for each, the vertex `c + v`,
/// where `c` positions have been declared before the line. What follows the line is read
/// from the state it leaves, so no later vertex changes the polygon.
pub proof fn relative_face(st: ObjState, line: Seq<char>, ln: nat, strict: bool, vs: Seq<int>)
    requires
        words_of(line).len() >= 4,
        words_of(line)[0] == "f"@,
        vs.len() == words_of(line).len() - 1,
        forall|k: int| 0 <= k < vs.len() ==> relative_field(#[trigger] words_of(line)[k + 1], vs[k], st.data.position.len()),
    ensures
        obj_step(st, line, ln, strict) matches Ok(st2) && st2.group matches Some(g) && g.polys.last()
            == Seq::new(
            vs.len(),
            |k: int| IndexTuple((st.data.position.len() + vs[k]) as usize, None, None),
        ),
{
    crate::roundtrip::lemma_keywords();
    crate::roundtrip::lemma_keywords_distinct();
    let d = st.data;
    let (np, nt, nn) = (d.position.len(), d.texture.len(), d.normal.len());
    let fs = words_of(line).drop_first();
    let want = Seq::new(vs.len(), |k: int| IndexTuple((np + vs[k]) as usize, None, None));
    assert forall|k: int| 0 <= k < fs.len() implies resolve_spec(#[trigger] fs[k], np, nt, nn, ln)
        == Ok::<_, ObjErrorView>(want[k]) by {
        assert(fs[k] == words_of(line)[k + 1]);
        assert(relative_field(words_of(line)[k + 1], vs[k], np));
        relative_position(fs[k], np, nt, nn, ln, vs[k]);
    }
    lemma_face_all(fs, np, nt, nn, ln, want);
    assert(poly_spec(fs, np, nt, nn, ln) == Ok::<_, ObjErrorView>(want));
}

proof fn lemma_face_all(fs: Seq<Seq<char>>, np: nat, nt: nat, nn: nat, ln: nat, want: Seq<IndexTuple>)
    requires
        want.len() == fs.len(),
        forall|k: int| 0 <= k < fs.len() ==> resolve_spec(#[trigger] fs[k], np, nt, nn, ln) == Ok::<
            _,
            ObjErrorView,
        >(want[k]),
    ensures
        face_spec(fs, np, nt, nn, ln) == Ok::<_, ObjErrorView>(want),
    decreases fs.len(),
{
    if fs.len() == 0 {
        assert(want =~= Seq::<IndexTuple>::empty());
    } else {
        let p = fs.drop_last();
        assert forall|k: int| 0 <= k < p.len() implies resolve_spec(#[trigger] p[k], np, nt, nn, ln)
            == Ok::<_, ObjErrorView>(want.drop_last()[k]) by {
            assert(p[k] == fs[k]);
        }
        lemma_face_all(p, np, nt, nn, ln, want.drop_last());
        assert(fs.last() == fs[fs.len() - 1]);
        assert(want.drop_last().push(want.last()) =~= want);
    }
}

} // verus!
