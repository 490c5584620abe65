//! What reading gives can be written and read back, but for a few inputs.

use vstd::prelude::*;

use crate::mtl::MtlView;
use crate::obj::{
    close_group, coords_spec, default_name, face_spec, finish, initial_state, new_group,
    obj_parse, obj_run, obj_step, resolve_spec, GroupView, IndexTuple, ObjDataView,
    ObjErrorView, ObjMaterialView, ObjState, ObjectView,
};
use crate::roundtrip::{
    all_free, continues, coords_ok, data_ok, free_of, group_ok, groups_ok, is_name, is_word,
    lemma_keywords, lemma_keywords_distinct, lemma_words_are_words, lemma_words_concat,
    lemma_words_word, libs_ok, name_ok, objects_ok, round_trip, tuple_ok,
};
use crate::text::{
    lead_word, after_command, is_float_lit, is_ws, join_words, lead_ws, lines_of, name_text, pieces,
    trail_ws, trim, words_of,
};
use crate::write::{data_chained, data_text, groups_chained};

verus! {

proof fn lemma_words_of_join(ws: Seq<Seq<char>>)
    requires
        forall|i: int| 0 <= i < ws.len() ==> is_word(#[trigger] ws[i]),
    ensures
        words_of(join_words(ws)) == ws,
    decreases ws.len(),
{
    if ws.len() == 0 {
        assert(words_of(Seq::<char>::empty()) =~= ws);
    } else if ws.len() == 1 {
        lemma_words_word(ws[0]);
        assert(ws =~= seq![ws[0]]);
    } else {
        let p = ws.drop_last();
        lemma_words_of_join(p);
        lemma_words_concat(join_words(p), ws.last());
        lemma_words_word(ws.last());
        assert(p + seq![ws.last()] =~= ws);
    }
}

pub proof fn lemma_join_name(ws: Seq<Seq<char>>)
    requires
        ws.len() > 0,
        forall|i: int| 0 <= i < ws.len() ==> is_word(#[trigger] ws[i]),
    ensures
        is_name(join_words(ws)),
{
    lemma_words_of_join(ws);
}

proof fn lemma_default_name()
    ensures
        is_name(default_name()),
{
    lemma_keywords();
    assert(is_word(default_name()));
    lemma_words_word(default_name());
    assert(join_words(seq![default_name()]) == default_name());
}

/// Empty, or a name that a line gives back.
pub open spec fn trimmed(s: Seq<char>) -> bool {
    s.len() == 0 || name_ok(s)
}

/// Vertex indices among `np` positions, `nt` texture coordinates and `nn` normals.
pub open spec fn in_range(t: IndexTuple, np: nat, nt: nat, nn: nat) -> bool {
    &&& t.0 < np
    &&& (t.1 matches Some(x) ==> x < nt)
    &&& (t.2 matches Some(x) ==> x < nn)
}

/// A group as reading leaves it: a trimmed name, a material named by one word where it has
/// one, and polygons of at least three vertices that name declared vertices.
pub open spec fn group_shape(g: GroupView, np: nat, nt: nat, nn: nat) -> bool {
    &&& trimmed(g.name)
    &&& (g.material matches Some(m) ==> (m matches ObjMaterialView::Ref(r) && is_word(r)))
    &&& forall|i: int| 0 <= i < g.polys.len() ==> (#[trigger] g.polys[i]).len() >= 3
    &&& forall|i: int, j: int|
        0 <= i < g.polys.len() && 0 <= j < g.polys[i].len() ==> in_range(
            #[trigger] g.polys[i][j],
            np,
            nt,
            nn,
        )
}

/// Groups as reading leaves them: the first with index 0, and each with an index above 0
/// continuing the one before.
pub open spec fn groups_shape(gs: Seq<GroupView>, np: nat, nt: nat, nn: nat) -> bool {
    &&& forall|i: int| 0 <= i < gs.len() ==> group_shape(#[trigger] gs[i], np, nt, nn)
    &&& (gs.len() > 0 ==> gs[0].index == 0)
    &&& forall|i: int| 0 < i < gs.len() ==> continues(Some(gs[i - 1]), #[trigger] gs[i])
}

pub open spec fn shaped(gs: Seq<GroupView>, d: ObjDataView) -> bool {
    groups_shape(gs, d.position.len(), d.texture.len(), d.normal.len())
}

/// What holds of the reader's state after any lines.
pub open spec fn state_inv(st: ObjState) -> bool {
    &&& coords_ok(st.data.position, 3)
    &&& coords_ok(st.data.texture, 2)
    &&& coords_ok(st.data.normal, 3)
    &&& libs_ok(st.data.material_libs)
    &&& forall|i: int|
        0 <= i < st.data.objects.len() ==> shaped(#[trigger] st.data.objects[i].groups, st.data)
            && (st.data.objects[i].name == default_name() || trimmed(st.data.objects[i].name))
    &&& (st.data.objects.len() > 0 ==> st.data.objects[0].name == default_name())
    &&& (st.data.objects.len() == 0 ==> st.object.name == default_name())
    &&& (st.object.name == default_name() || trimmed(st.object.name))
    &&& shaped(close_group(st.object, st.group).groups, st.data)
}

proof fn lemma_group_grow(g: GroupView, np: nat, nt: nat, nn: nat, np2: nat, nt2: nat, nn2: nat)
    requires
        group_shape(g, np, nt, nn),
        np <= np2,
        nt <= nt2,
        nn <= nn2,
    ensures
        group_shape(g, np2, nt2, nn2),
{
    assert forall|i: int, j: int| 0 <= i < g.polys.len() && 0 <= j < g.polys[i].len() implies in_range(
        #[trigger] g.polys[i][j],
        np2,
        nt2,
        nn2,
    ) by {
        assert(in_range(g.polys[i][j], np, nt, nn));
    }
}

proof fn lemma_groups_grow(gs: Seq<GroupView>, d: ObjDataView, d2: ObjDataView)
    requires
        shaped(gs, d),
        d.position.len() <= d2.position.len(),
        d.texture.len() <= d2.texture.len(),
        d.normal.len() <= d2.normal.len(),
    ensures
        shaped(gs, d2),
{
    assert forall|i: int| 0 <= i < gs.len() implies group_shape(
        #[trigger] gs[i],
        d2.position.len(),
        d2.texture.len(),
        d2.normal.len(),
    ) by {
        lemma_group_grow(
            gs[i],
            d.position.len(),
            d.texture.len(),
            d.normal.len(),
            d2.position.len(),
            d2.texture.len(),
            d2.normal.len(),
        );
    }
}

/// The state with more vertices declared, nothing else changed, keeps the invariant.
proof fn lemma_inv_coords(st: ObjState, d2: ObjDataView)
    requires
        state_inv(st),
        coords_ok(d2.position, 3),
        coords_ok(d2.texture, 2),
        coords_ok(d2.normal, 3),
        d2.objects == st.data.objects,
        d2.material_libs == st.data.material_libs,
        st.data.position.len() <= d2.position.len(),
        st.data.texture.len() <= d2.texture.len(),
        st.data.normal.len() <= d2.normal.len(),
    ensures
        state_inv(ObjState { data: d2, object: st.object, group: st.group }),
{
    assert forall|i: int| 0 <= i < d2.objects.len() implies shaped(#[trigger] d2.objects[i].groups, d2)
        && (d2.objects[i].name == default_name() || trimmed(d2.objects[i].name)) by {
        assert(shaped(st.data.objects[i].groups, st.data));
        lemma_groups_grow(d2.objects[i].groups, st.data, d2);
    }
    lemma_groups_grow(close_group(st.object, st.group).groups, st.data, d2);
}

proof fn lemma_coords_push(cs: Seq<Seq<Seq<char>>>, a: Seq<Seq<char>>, n: nat, ln: nat)
    requires
        coords_ok(cs, n),
        coords_spec(a, n, ln) is Ok,
    ensures
        coords_ok(cs.push(coords_spec(a, n, ln)->Ok_0), n),
{
    let c = coords_spec(a, n, ln)->Ok_0;
    assert(c == a.take(n as int));
    assert forall|i: int| 0 <= i < cs.push(c).len() implies (#[trigger] cs.push(c)[i]).len() == n
        && forall|j: int| 0 <= j < n ==> is_float_lit(#[trigger] cs.push(c)[i][j]) by {
        if i < cs.len() {
            assert(cs.push(c)[i] == cs[i]);
        } else {
            assert forall|j: int| 0 <= j < n implies is_float_lit(#[trigger] cs.push(c)[i][j]) by {
                assert(c[j] == a[j]);
            }
        }
    }
}

proof fn lemma_face_range(fs: Seq<Seq<char>>, np: nat, nt: nat, nn: nat, ln: nat)
    requires
        face_spec(fs, np, nt, nn, ln) is Ok,
    ensures
        face_spec(fs, np, nt, nn, ln)->Ok_0.len() == fs.len(),
        forall|j: int|
            0 <= j < fs.len() ==> in_range(#[trigger] face_spec(fs, np, nt, nn, ln)->Ok_0[j], np, nt, nn),
    decreases fs.len(),
{
    if fs.len() > 0 {
        lemma_face_range(fs.drop_last(), np, nt, nn, ln);
        let p = face_spec(fs.drop_last(), np, nt, nn, ln)->Ok_0;
        let f = fs.last();
        let parts = pieces(f, '/');
        let x = resolve_spec(f, np, nt, nn, ln)->Ok_0;
        assert(in_range(x, np, nt, nn));
        assert forall|j: int| 0 <= j < fs.len() implies in_range(
            #[trigger] face_spec(fs, np, nt, nn, ln)->Ok_0[j],
            np,
            nt,
            nn,
        ) by {
            if j < fs.len() - 1 {
                assert(face_spec(fs, np, nt, nn, ln)->Ok_0[j] == p[j]);
            }
        }
    }
}

/// The last group of `gs` replaced by `g`, which keeps its name and index.
proof fn lemma_shape_replace_last(gs: Seq<GroupView>, g: GroupView, np: nat, nt: nat, nn: nat)
    requires
        groups_shape(gs, np, nt, nn),
        gs.len() > 0,
        group_shape(g, np, nt, nn),
        g.name == gs.last().name,
        g.index == gs.last().index,
    ensures
        groups_shape(gs.drop_last().push(g), np, nt, nn),
{
    let hs = gs.drop_last().push(g);
    assert forall|i: int| 0 <= i < hs.len() implies group_shape(#[trigger] hs[i], np, nt, nn) by {
        if i < hs.len() - 1 {
            assert(hs[i] == gs[i]);
        }
    }
    assert forall|i: int| 0 < i < hs.len() implies continues(Some(hs[i - 1]), #[trigger] hs[i]) by {
        assert(continues(Some(gs[i - 1]), gs[i]));
        if i < hs.len() - 1 {
            assert(hs[i] == gs[i]);
        }
        assert(hs[i - 1] == gs[i - 1]);
    }
    if hs.len() == 1 {
        assert(hs[0] == g);
        assert(gs[0] == gs.last());
    } else {
        assert(hs[0] == gs[0]);
    }
}

/// `g`, which continues the last group of `gs` or has index 0, added at the end.
proof fn lemma_shape_push(gs: Seq<GroupView>, g: GroupView, np: nat, nt: nat, nn: nat)
    requires
        groups_shape(gs, np, nt, nn),
        group_shape(g, np, nt, nn),
        g.index == 0 || (gs.len() > 0 && continues(Some(gs.last()), g)),
    ensures
        groups_shape(gs.push(g), np, nt, nn),
{
    let hs = gs.push(g);
    assert forall|i: int| 0 <= i < hs.len() implies group_shape(#[trigger] hs[i], np, nt, nn) by {
        if i < gs.len() {
            assert(hs[i] == gs[i]);
        }
    }
    assert forall|i: int| 0 < i < hs.len() implies continues(Some(hs[i - 1]), #[trigger] hs[i]) by {
        if i < gs.len() {
            assert(hs[i] == gs[i]);
            assert(continues(Some(gs[i - 1]), gs[i]));
        } else {
            assert(hs[i - 1] == gs.last());
        }
        assert(hs[i - 1] == gs[i - 1] || i == gs.len());
    }
    if gs.len() > 0 {
        assert(hs[0] == gs[0]);
    }
}

proof fn lemma_args_words(line: Seq<char>)
    ensures
        forall|i: int| 0 <= i < words_of(line).len() ==> is_word(#[trigger] words_of(line)[i]),
        words_of(line).len() > 0 ==> forall|i: int|
            0 <= i < words_of(line).drop_first().len() ==> is_word(
                #[trigger] words_of(line).drop_first()[i],
            ),
{
    lemma_words_are_words(line);
    let w = words_of(line);
    if w.len() > 0 {
        assert forall|i: int| 0 <= i < w.drop_first().len() implies is_word(
            #[trigger] w.drop_first()[i],
        ) by {
            assert(w.drop_first()[i] == w[i + 1]);
        }
    }
}

proof fn lemma_lead_ws_stop(s: Seq<char>)
    ensures
        lead_ws(s) <= s.len(),
        lead_ws(s) < s.len() ==> !is_ws(s[lead_ws(s) as int]),
    decreases s.len(),
{
    if s.len() > 0 && is_ws(s[0]) {
        lemma_lead_ws_stop(s.drop_first());
        if lead_ws(s) < s.len() {
            assert(s.drop_first()[lead_ws(s.drop_first()) as int] == s[lead_ws(s) as int]);
        }
    }
}

proof fn lemma_trail_ws_stop(s: Seq<char>)
    ensures
        trail_ws(s) <= s.len(),
        trail_ws(s) < s.len() ==> !is_ws(s[s.len() - trail_ws(s) - 1]),
    decreases s.len(),
{
    if s.len() > 0 && is_ws(s.last()) {
        lemma_trail_ws_stop(s.drop_last());
        if trail_ws(s) < s.len() {
            assert(s.drop_last()[s.len() - 1 - trail_ws(s.drop_last()) - 1] == s[s.len()
                - trail_ws(s) - 1]);
        }
    }
}

proof fn lemma_free_skip(s: Seq<char>, k: int)
    requires
        0 <= k <= s.len(),
        free_of(s, '\n'),
    ensures
        free_of(s.skip(k), '\n'),
{
    assert forall|i: int| 0 <= i < s.skip(k).len() implies #[trigger] s.skip(k)[i] != '\n' by {
        assert(s.skip(k)[i] == s[k + i]);
    }
}

proof fn lemma_lead_word_le(s: Seq<char>)
    ensures
        lead_word(s) <= s.len(),
    decreases s.len(),
{
    if s.len() > 0 && !is_ws(s[0]) {
        lemma_lead_word_le(s.drop_first());
    }
}

/// The name that a line without line feeds gives is trimmed.
proof fn lemma_name_trimmed(line: Seq<char>)
    requires
        free_of(line, '\n'),
        name_text(line) is Some,
    ensures
        trimmed(name_text(line)->0),
{
    let a0 = line.skip(lead_ws(line) as int);
    lemma_lead_ws_stop(line);
    lemma_free_skip(line, lead_ws(line) as int);
    lemma_lead_word_le(a0);
    let r = after_command(line);
    lemma_free_skip(a0, lead_word(a0) as int);
    let a = r.skip(lead_ws(r) as int);
    lemma_lead_ws_stop(r);
    lemma_free_skip(r, lead_ws(r) as int);
    lemma_trail_ws_stop(a);
    let t = trim(r);
    assert(t == a.take(a.len() - trail_ws(a)));
    if t.len() > 0 {
        assert(t[0] == a[0]);
        assert(a[0] == r[lead_ws(r) as int]);
        assert(t.last() == a[a.len() - trail_ws(a) - 1]);
        assert forall|i: int| 0 <= i < t.len() implies #[trigger] t[i] != '\n' by {
            assert(t[i] == a[i]);
        }
    }
}

proof fn lemma_pieces_free_sep(s: Seq<char>, sep: char)
    ensures
        forall|i: int| 0 <= i < pieces(s, sep).len() ==> free_of(#[trigger] pieces(s, sep)[i], sep),
    decreases s.len(),
{
    crate::text::lemma_pieces_nonempty(s, sep);
    if s.len() > 0 {
        lemma_pieces_free_sep(s.drop_last(), sep);
        crate::text::lemma_pieces_nonempty(s.drop_last(), sep);
        let l = pieces(s.drop_last(), sep);
        assert forall|i: int| 0 <= i < pieces(s, sep).len() implies free_of(
            #[trigger] pieces(s, sep)[i],
            sep,
        ) by {
            if s.last() != sep && i == l.len() - 1 {
                let x = l.last().push(s.last());
                assert(pieces(s, sep)[i] == x);
                assert forall|j: int| 0 <= j < x.len() implies #[trigger] x[j] != sep by {
                    if j < x.len() - 1 {
                        assert(x[j] == l.last()[j]);
                        assert(free_of(l[l.len() - 1], sep));
                    }
                }
            } else if i < l.len() {
                assert(pieces(s, sep)[i] == l[i]);
            } else {
                assert(pieces(s, sep)[i] =~= Seq::<char>::empty());
            }
        }
    }
}

proof fn lemma_inv_face(st: ObjState, line: Seq<char>, ln: nat, strict: bool)
    requires
        state_inv(st),
        words_of(line).len() > 0,
        words_of(line)[0] == "f"@,
        obj_step(st, line, ln, strict) is Ok,
    ensures
        state_inv(obj_step(st, line, ln, strict)->Ok_0),
{
    lemma_keywords();
    lemma_keywords_distinct();
    lemma_default_name();
    let w = words_of(line);
    let d = st.data;
    let (np, nt, nn) = (d.position.len(), d.texture.len(), d.normal.len());
    let a = w.drop_first();
    assert(a.len() >= 3);
    lemma_face_range(a, np, nt, nn, ln);
    let p = face_spec(a, np, nt, nn, ln)->Ok_0;
    let g = match st.group {
        Some(g) => g,
        None => new_group(default_name()),
    };
    let g2 = GroupView { polys: g.polys.push(p), ..g };
    let st2 = obj_step(st, line, ln, strict)->Ok_0;
    assert(st2 == ObjState { data: d, object: st.object, group: Some(g2) });
    let before = close_group(st.object, st.group).groups;
    assert(group_shape(g2, np, nt, nn)) by {
        if st.group is Some {
            assert(before.last() == g);
            assert(group_shape(before[before.len() - 1], np, nt, nn));
        }
        assert forall|i: int| 0 <= i < g2.polys.len() implies (#[trigger] g2.polys[i]).len() >= 3 by {
            if i < g.polys.len() {
                assert(g2.polys[i] == g.polys[i]);
            }
        }
        assert forall|i: int, j: int| 0 <= i < g2.polys.len() && 0 <= j < g2.polys[i].len() implies in_range(
            #[trigger] g2.polys[i][j],
            np,
            nt,
            nn,
        ) by {
            if i < g.polys.len() {
                assert(g2.polys[i] == g.polys[i]);
            } else {
                assert(g2.polys[i] == p);
            }
        }
    }
    if st.group is Some {
        assert(before == st.object.groups.push(g));
        assert(before.drop_last() =~= st.object.groups);
        lemma_shape_replace_last(before, g2, np, nt, nn);
    } else {
        assert(before == st.object.groups);
        lemma_shape_push(before, g2, np, nt, nn);
    }
    assert(close_group(st2.object, st2.group).groups == st.object.groups.push(g2));
    assert(shaped(close_group(st2.object, st2.group).groups, st2.data));
}

proof fn lemma_inv_usemtl(st: ObjState, line: Seq<char>, ln: nat, strict: bool)
    requires
        state_inv(st),
        words_of(line).len() > 0,
        words_of(line)[0] == "usemtl"@,
    ensures
        obj_step(st, line, ln, strict) is Ok,
        state_inv(obj_step(st, line, ln, strict)->Ok_0),
{
    lemma_keywords();
    lemma_keywords_distinct();
    lemma_default_name();
    lemma_args_words(line);
    let w = words_of(line);
    let d = st.data;
    let (np, nt, nn) = (d.position.len(), d.texture.len(), d.normal.len());
    let a = w.drop_first();
    let g = match st.group {
        Some(g) => g,
        None => new_group(default_name()),
    };
    let m = if a.len() == 0 {
        None
    } else {
        Some(ObjMaterialView::Ref(a[0]))
    };
    let st2 = obj_step(st, line, ln, strict)->Ok_0;
    let before = close_group(st.object, st.group).groups;
    if st.group is Some {
        assert(before.last() == g);
        assert(group_shape(before[before.len() - 1], np, nt, nn));
        assert(before.drop_last() =~= st.object.groups);
    }
    if g.material is Some {
        let n = GroupView { name: g.name, index: g.index + 1, material: m, polys: Seq::empty() };
        assert(st2 == ObjState {
            data: d,
            object: ObjectView { name: st.object.name, groups: st.object.groups.push(g) },
            group: Some(n),
        });
        assert(st.group is Some);
        assert(close_group(st.object, st.group).groups == st.object.groups.push(g));
        assert(group_shape(n, np, nt, nn));
        lemma_shape_push(st.object.groups.push(g), n, np, nt, nn);
        assert(close_group(st2.object, st2.group).groups == st.object.groups.push(g).push(n));
        assert(shaped(close_group(st2.object, st2.group).groups, st2.data));
        assert(st2.data == st.data);
        assert(st2.object.name == st.object.name);
    } else {
        let g2 = GroupView { material: m, ..g };
        assert(st2 == ObjState { data: d, object: st.object, group: Some(g2) });
        assert(group_shape(g2, np, nt, nn));
        if st.group is Some {
            lemma_shape_replace_last(before, g2, np, nt, nn);
        } else {
            assert(before == st.object.groups);
            lemma_shape_push(before, g2, np, nt, nn);
        }
        assert(close_group(st2.object, st2.group).groups == st.object.groups.push(g2));
        assert(shaped(close_group(st2.object, st2.group).groups, st2.data));
    }
}

proof fn lemma_inv_object(st: ObjState, line: Seq<char>, ln: nat, strict: bool)
    requires
        state_inv(st),
        free_of(line, '\n'),
        words_of(line).len() > 0,
        words_of(line)[0] == "o"@,
    ensures
        obj_step(st, line, ln, strict) is Ok,
        state_inv(obj_step(st, line, ln, strict)->Ok_0),
{
    lemma_keywords();
    lemma_keywords_distinct();
    let d = st.data;
    if name_text(line) is Some {
        lemma_name_trimmed(line);
    }
    let closed = close_group(st.object, st.group);
    let objs = d.objects.push(closed);
    let st2 = obj_step(st, line, ln, strict)->Ok_0;
    assert(st2.data.objects == objs);
    assert(close_group(st2.object, st2.group).groups =~= Seq::<GroupView>::empty());
    assert forall|i: int| 0 <= i < objs.len() implies shaped(#[trigger] objs[i].groups, st2.data)
        && (objs[i].name == default_name() || trimmed(objs[i].name)) by {
        if i < d.objects.len() {
            assert(objs[i] == d.objects[i]);
            assert(shaped(d.objects[i].groups, d));
        } else {
            assert(objs[i] == closed);
            assert(closed.name == st.object.name);
        }
    }
    if d.objects.len() > 0 {
        assert(objs[0] == d.objects[0]);
    }
}

proof fn lemma_inv_group(st: ObjState, line: Seq<char>, ln: nat, strict: bool)
    requires
        state_inv(st),
        free_of(line, '\n'),
        words_of(line).len() > 0,
        words_of(line)[0] == "g"@,
    ensures
        obj_step(st, line, ln, strict) is Ok,
        state_inv(obj_step(st, line, ln, strict)->Ok_0),
{
    lemma_keywords();
    lemma_keywords_distinct();
    let d = st.data;
    let (np, nt, nn) = (d.position.len(), d.texture.len(), d.normal.len());
    let closed = close_group(st.object, st.group);
    let st2 = obj_step(st, line, ln, strict)->Ok_0;
    assert(st2.object == closed);
    assert(st2.data == st.data);
    assert(closed.name == st.object.name);
    match name_text(line) {
        Some(nm) => {
            lemma_name_trimmed(line);
            let n = new_group(nm);
            assert(group_shape(n, np, nt, nn));
            lemma_shape_push(closed.groups, n, np, nt, nn);
            assert(st2.group == Some(n));
            assert(close_group(st2.object, st2.group).groups == closed.groups.push(n));
        },
        None => {
            assert(st2.group is None);
            assert(close_group(st2.object, st2.group) == closed);
        },
    }
}

proof fn lemma_inv_lib(st: ObjState, line: Seq<char>, ln: nat, strict: bool)
    requires
        state_inv(st),
        words_of(line).len() > 0,
        words_of(line)[0] == "mtllib"@,
        obj_step(st, line, ln, strict) is Ok,
    ensures
        state_inv(obj_step(st, line, ln, strict)->Ok_0),
{
    lemma_keywords();
    lemma_keywords_distinct();
    lemma_args_words(line);
    let a = words_of(line).drop_first();
    lemma_join_name(a);
    let l = MtlView { filename: join_words(a), materials: Seq::empty() };
    let ls = st.data.material_libs.push(l);
    assert forall|i: int| 0 <= i < ls.len() implies is_name((#[trigger] ls[i]).filename)
        && ls[i].materials.len() == 0 by {
        if i < st.data.material_libs.len() {
            assert(ls[i] == st.data.material_libs[i]);
        }
    }
    let st2 = obj_step(st, line, ln, strict)->Ok_0;
    assert(st2.data.objects == st.data.objects);
}

proof fn lemma_inv_step(st: ObjState, line: Seq<char>, ln: nat, strict: bool)
    requires
        state_inv(st),
        free_of(line, '\n'),
        obj_step(st, line, ln, strict) is Ok,
    ensures
        state_inv(obj_step(st, line, ln, strict)->Ok_0),
{
    lemma_keywords();
    lemma_keywords_distinct();
    lemma_args_words(line);
    let w = words_of(line);
    let d = st.data;
    let st2 = obj_step(st, line, ln, strict)->Ok_0;
    if w.len() == 0 {
    } else if w[0] == "v"@ {
        lemma_coords_push(d.position, w.drop_first(), 3, ln);
        lemma_inv_coords(st, st2.data);
    } else if w[0] == "vt"@ {
        lemma_coords_push(d.texture, w.drop_first(), 2, ln);
        lemma_inv_coords(st, st2.data);
    } else if w[0] == "vn"@ {
        lemma_coords_push(d.normal, w.drop_first(), 3, ln);
        lemma_inv_coords(st, st2.data);
    } else if w[0] == "f"@ {
        lemma_inv_face(st, line, ln, strict);
    } else if w[0] == "o"@ {
        lemma_inv_object(st, line, ln, strict);
    } else if w[0] == "g"@ {
        lemma_inv_group(st, line, ln, strict);
    } else if w[0] == "mtllib"@ {
        lemma_inv_lib(st, line, ln, strict);
    } else if w[0] == "usemtl"@ {
        lemma_inv_usemtl(st, line, ln, strict);
    }
}

proof fn lemma_inv_run(ls: Seq<Seq<char>>, strict: bool)
    requires
        obj_run(ls, strict) is Ok,
        all_free(ls),
    ensures
        state_inv(obj_run(ls, strict)->Ok_0),
    decreases ls.len(),
{
    if ls.len() == 0 {
        lemma_keywords();
        assert(close_group(initial_state().object, None).groups =~= Seq::<GroupView>::empty());
    } else {
        assert(all_free(ls.drop_last())) by {
            assert forall|i: int| 0 <= i < ls.drop_last().len() implies free_of(
                #[trigger] ls.drop_last()[i],
                '\n',
            ) by {
                assert(ls.drop_last()[i] == ls[i]);
            }
        }
        lemma_inv_run(ls.drop_last(), strict);
        assert(free_of(ls[ls.len() - 1], '\n'));
        lemma_inv_step(obj_run(ls.drop_last(), strict)->Ok_0, ls.last(), (ls.len() - 1) as nat, strict);
    }
}

/// The invariant of the state after all the lines of `text`.
proof fn lemma_inv_text(text: Seq<char>, strict: bool)
    requires
        obj_run(lines_of(text), strict) is Ok,
    ensures
        state_inv(obj_run(lines_of(text), strict)->Ok_0),
{
    lemma_pieces_free_sep(text, '\n');
    lemma_inv_run(lines_of(text), strict);
}

/// A group whose name is not empty, whose vertex numbers fit `isize` once written, and that
/// has a material where a `usemtl` split it off.
pub open spec fn group_rereadable(g: GroupView) -> bool {
    &&& g.name.len() > 0
    &&& (g.index > 0 ==> g.material is Some)
    &&& forall|k: int, l: int|
        0 <= k < g.polys.len() && 0 <= l < g.polys[k].len() ==> (#[trigger] g.polys[k][l]).0
            < isize::MAX && (g.polys[k][l].1 matches Some(x) ==> x < isize::MAX) && (
        g.polys[k][l].2 matches Some(x) ==> x < isize::MAX)
}

/// Contents that writing gives back: every object after the first has a name other than
/// `default`, no group is unnamed, no `usemtl` without a name split a group, and every vertex
/// number fits `isize`.
pub open spec fn rereadable(d: ObjDataView) -> bool {
    &&& forall|i: int|
        0 < i < d.objects.len() ==> (#[trigger] d.objects[i]).name != default_name()
            && d.objects[i].name.len() > 0
    &&& forall|i: int, j: int|
        0 <= i < d.objects.len() && 0 <= j < d.objects[i].groups.len() ==> group_rereadable(
            #[trigger] d.objects[i].groups[j],
        )
}

proof fn lemma_groups_ok(gs: Seq<GroupView>, np: nat, nt: nat, nn: nat)
    requires
        groups_shape(gs, np, nt, nn),
        forall|j: int| 0 <= j < gs.len() ==> group_rereadable(#[trigger] gs[j]),
    ensures
        groups_ok(gs, np, nt, nn),
{
    assert forall|j: int| 0 <= j < gs.len() implies group_ok(#[trigger] gs[j], np, nt, nn) by {
        let g = gs[j];
        assert(group_shape(g, np, nt, nn));
        assert(group_rereadable(g));
        assert forall|k: int| 0 <= k < g.polys.len() implies (#[trigger] g.polys[k]).len() >= 3
            && forall|l: int| 0 <= l < g.polys[k].len() ==> tuple_ok(#[trigger] g.polys[k][l], np, nt, nn) by {
            assert forall|l: int| 0 <= l < g.polys[k].len() implies tuple_ok(#[trigger] g.polys[k][l], np, nt, nn) by {
                assert(in_range(g.polys[k][l], np, nt, nn));
            }
        }
    }
}

/// Reading back what the writer writes of what reading gave gives the same contents, but for
/// the inputs that `rereadable` leaves out.
pub proof fn parsed_round_trip(text: Seq<char>, strict: bool, d: ObjDataView)
    requires
        obj_parse(text, strict) == Ok::<_, ObjErrorView>(d),
        rereadable(d),
    ensures
        obj_parse(data_text(d), strict) == Ok::<_, ObjErrorView>(d),
{
    let ls = lines_of(text);
    lemma_inv_text(text, strict);
    let st = obj_run(ls, strict)->Ok_0;
    assert(finish(st) == d);
    let (np, nt, nn) = (d.position.len(), d.texture.len(), d.normal.len());
    let closed = close_group(st.object, st.group);
    let objs = st.data.objects.push(closed);
    assert(d.objects == objs);
    assert(closed.name == st.object.name);
    assert forall|i: int| 0 < i < objs.len() implies (#[trigger] objs[i]).name != default_name()
        && name_ok(objs[i].name) by {
        assert(objs[i].name.len() > 0);
        if i < st.data.objects.len() {
            assert(objs[i] == st.data.objects[i]);
            assert(shaped(st.data.objects[i].groups, st.data));
        } else {
            assert(objs[i] == closed);
        }
    }
    assert forall|i: int| 0 <= i < objs.len() implies groups_ok(#[trigger] objs[i].groups, np, nt, nn) by {
        if i < st.data.objects.len() {
            assert(objs[i] == st.data.objects[i]);
            assert(shaped(st.data.objects[i].groups, st.data));
        } else {
            assert(objs[i] == closed);
        }
        assert forall|j: int| 0 <= j < objs[i].groups.len() implies group_rereadable(
            #[trigger] objs[i].groups[j],
        ) by {
            assert(group_rereadable(d.objects[i].groups[j]));
        }
        assert forall|j: int| 0 <= j < objs[i].groups.len() implies name_ok(#[trigger] objs[i].groups[j].name) by {
            assert(group_rereadable(objs[i].groups[j]));
            assert(group_shape(objs[i].groups[j], np, nt, nn));
        }
        lemma_groups_ok(objs[i].groups, np, nt, nn);
    }
    if st.data.objects.len() > 0 {
        assert(objs[0] == st.data.objects[0]);
    } else {
        assert(objs[0] == closed);
    }
    assert(objects_ok(d.objects, np, nt, nn));
    assert(data_ok(d));
    round_trip(d, strict);
}

/// What reading gives can be written: in each object the first group has index 0, and every
/// group with an index above 0 follows a group of the same name, with a material, whose index
/// is one less.
pub proof fn parsed_groups_chained(text: Seq<char>, strict: bool, d: ObjDataView)
    requires
        obj_parse(text, strict) == Ok::<_, ObjErrorView>(d),
    ensures
        data_chained(d),
        forall|i: int|
            0 <= i < d.objects.len() ==> groups_continue(#[trigger] d.objects[i].groups),
{
    let ls = lines_of(text);
    lemma_inv_text(text, strict);
    let st = obj_run(ls, strict)->Ok_0;
    let closed = close_group(st.object, st.group);
    let objs = st.data.objects.push(closed);
    assert(d.objects == objs);
    assert forall|i: int| 0 <= i < d.objects.len() implies groups_chained(#[trigger] d.objects[i].groups) by {
        let gs = objs[i].groups;
        if i < st.data.objects.len() {
            assert(objs[i] == st.data.objects[i]);
            assert(shaped(st.data.objects[i].groups, st.data));
        } else {
            assert(objs[i] == closed);
        }
        assert forall|k: int| 0 < k < gs.len() implies #[trigger] gs[k].index == 0 || gs[k].name
            == gs[k - 1].name by {
            assert(continues(Some(gs[k - 1]), gs[k]));
        }
    }
    assert forall|i: int| 0 <= i < d.objects.len() implies groups_continue(#[trigger] d.objects[i].groups) by {
        if i < st.data.objects.len() {
            assert(objs[i] == st.data.objects[i]);
            assert(shaped(st.data.objects[i].groups, st.data));
        } else {
            assert(objs[i] == closed);
        }
    }
}

/// The first group has index 0, and each group with an index above 0 continues the one
/// before: same name, index one more, and the one before has a material.
pub open spec fn groups_continue(gs: Seq<GroupView>) -> bool {
    &&& (gs.len() > 0 ==> gs[0].index == 0)
    &&& forall|k: int| 0 < k < gs.len() ==> continues(Some(gs[k - 1]), #[trigger] gs[k])
}

} // verus!
