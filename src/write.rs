//! Writing `.obj` and `.mtl` text.

use vstd::prelude::*;
use vstd::string::*;

use crate::mtl::{Material, MaterialView, Mtl, MtlView};
use crate::obj::{
    default_name, material_name, lits2_views, lits3_views, Group, GroupView, IndexTuple, ObjData, ObjDataView,
    Object, ObjectView, SimplePolygon,
};
use crate::mtl::lits3;
use crate::text::FloatLit;

verus! {

pub open spec fn digit_char(d: nat) -> char {
    if d == 0 {
        '0'
    } else if d == 1 {
        '1'
    } else if d == 2 {
        '2'
    } else if d == 3 {
        '3'
    } else if d == 4 {
        '4'
    } else if d == 5 {
        '5'
    } else if d == 6 {
        '6'
    } else if d == 7 {
        '7'
    } else if d == 8 {
        '8'
    } else {
        '9'
    }
}

/// The decimal digits of `n`.
pub open spec fn dec(n: nat) -> Seq<char>
    decreases n,
{
    if n < 10 {
        seq![digit_char(n)]
    } else {
        dec(n / 10).push(digit_char(n % 10))
    }
}

fn digit(d: u128) -> (c: char)
    requires
        d < 10,
    ensures
        c == digit_char(d as nat),
{
    if d == 0 {
        '0'
    } else if d == 1 {
        '1'
    } else if d == 2 {
        '2'
    } else if d == 3 {
        '3'
    } else if d == 4 {
        '4'
    } else if d == 5 {
        '5'
    } else if d == 6 {
        '6'
    } else if d == 7 {
        '7'
    } else if d == 8 {
        '8'
    } else {
        '9'
    }
}

fn push_dec(out: &mut Vec<char>, n: u128)
    ensures
        final(out)@ == old(out)@ + dec(n as nat),
    decreases n,
{
    if n >= 10 {
        push_dec(out, n / 10);
    }
    out.push(digit(n % 10));
    assert(final(out)@ =~= old(out)@ + dec(n as nat));
}

/// Appends the decimal digits of `n` to `out`.
pub fn write_dec(out: &mut String, n: u128)
    ensures
        final(out)@ == old(out)@ + dec(n as nat),
{
    let mut cs: Vec<char> = Vec::new();
    push_dec(&mut cs, n);
    assert(cs@ =~= dec(n as nat));
    out.append(crate::text::string_of(cs.as_slice()).as_str());
}

/// The words `ws`, each after a space.
pub open spec fn spaced(ws: Seq<Seq<char>>) -> Seq<char>
    decreases ws.len(),
{
    if ws.len() == 0 {
        Seq::empty()
    } else {
        spaced(ws.drop_last()) + " "@ + ws.last()
    }
}

pub proof fn lemma_spaced_push(ws: Seq<Seq<char>>, w: Seq<char>)
    ensures
        spaced(ws.push(w)) == spaced(ws) + " "@ + w,
{
    assert(ws.push(w).drop_last() =~= ws);
}

/// Three words, each after a space.
pub proof fn lemma_spaced3(w: Seq<Seq<char>>)
    requires
        w.len() == 3,
    ensures
        spaced(w) == " "@ + w[0] + " "@ + w[1] + " "@ + w[2],
{
    lemma_spaced2(w.drop_last());
    lemma_spaced_push(w.drop_last(), w[2]);
    assert(w.drop_last().push(w[2]) =~= w);
}

/// Two words, each after a space.
pub proof fn lemma_spaced2(w: Seq<Seq<char>>)
    requires
        w.len() == 2,
    ensures
        spaced(w) == " "@ + w[0] + " "@ + w[1],
{
    let e = Seq::<Seq<char>>::empty();
    lemma_spaced_push(e, w[0]);
    lemma_spaced_push(e.push(w[0]), w[1]);
    assert(spaced(e) =~= Seq::<char>::empty());
    assert(e.push(w[0]).push(w[1]) =~= w);
    assert(Seq::<char>::empty() + " "@ + w[0] =~= " "@ + w[0]);
}

/// How a vertex is written in an `f` line: its numbers counted from one, the texture and
/// normal parts after slashes where present, and an empty texture part where only the normal
/// is present.
pub open spec fn tuple_text(t: IndexTuple) -> Seq<char> {
    dec(t.0 as nat + 1) + match (t.1, t.2) {
        (None, None) => Seq::empty(),
        (Some(ti), None) => "/"@ + dec(ti as nat + 1),
        (None, Some(ni)) => "//"@ + dec(ni as nat + 1),
        (Some(ti), Some(ni)) => "/"@ + dec(ti as nat + 1) + "/"@ + dec(ni as nat + 1),
    }
}

pub open spec fn poly_text(p: Seq<IndexTuple>) -> Seq<char> {
    "f"@ + spaced(Seq::new(p.len(), |i: int| tuple_text(p[i]))) + "\n"@
}

pub open spec fn polys_text(ps: Seq<Seq<IndexTuple>>) -> Seq<char>
    decreases ps.len(),
{
    if ps.len() == 0 {
        Seq::empty()
    } else {
        polys_text(ps.drop_last()) + poly_text(ps.last())
    }
}

/// How a group is written: `g` where its index is 0, which a later group of the same name
/// leaves out; then its material, then its polygons.
pub open spec fn group_text(g: GroupView) -> Seq<char> {
    (if g.index == 0 {
        "g "@ + g.name + "\n"@
    } else {
        Seq::empty()
    }) + (match g.material {
        Some(m) => "usemtl "@ + material_name(m) + "\n"@,
        None => Seq::empty(),
    }) + polys_text(g.polys)
}

pub open spec fn groups_text(gs: Seq<GroupView>) -> Seq<char>
    decreases gs.len(),
{
    if gs.len() == 0 {
        Seq::empty()
    } else {
        groups_text(gs.drop_last()) + group_text(gs.last())
    }
}

/// How an object is written: `o` where its name is not the default one, then its groups.
pub open spec fn object_text(o: ObjectView) -> Seq<char> {
    (if o.name != default_name() {
        "o "@ + o.name + "\n"@
    } else {
        Seq::empty()
    }) + groups_text(o.groups)
}

pub open spec fn objects_text(os: Seq<ObjectView>) -> Seq<char>
    decreases os.len(),
{
    if os.len() == 0 {
        Seq::empty()
    } else {
        objects_text(os.drop_last()) + object_text(os.last())
    }
}

/// One line per entry of `cs`: the keyword `kw`, then the numbers.
pub open spec fn coord_lines(kw: Seq<char>, cs: Seq<Seq<Seq<char>>>) -> Seq<char>
    decreases cs.len(),
{
    if cs.len() == 0 {
        Seq::empty()
    } else {
        coord_lines(kw, cs.drop_last()) + kw + spaced(cs.last()) + "\n"@
    }
}

pub open spec fn libs_text(ls: Seq<MtlView>) -> Seq<char>
    decreases ls.len(),
{
    if ls.len() == 0 {
        Seq::empty()
    } else {
        libs_text(ls.drop_last()) + "mtllib "@ + ls.last().filename + "\n"@
    }
}

/// How `.obj` contents are written: positions, texture coordinates, normals, objects, then one
/// `mtllib` line per library.
pub open spec fn data_text(d: ObjDataView) -> Seq<char> {
    coord_lines("v"@, d.position) + coord_lines("vt"@, d.texture) + coord_lines("vn"@, d.normal)
        + objects_text(d.objects) + libs_text(d.material_libs)
}

/// Groups with an index above 0 follow a group of the same name.
pub open spec fn groups_chained(gs: Seq<GroupView>) -> bool {
    forall|i: int| 0 < i < gs.len() ==> #[trigger] gs[i].index == 0 || gs[i].name == gs[i - 1].name
}

pub open spec fn data_chained(d: ObjDataView) -> bool {
    forall|i: int| 0 <= i < d.objects.len() ==> groups_chained(#[trigger] d.objects[i].groups)
}

impl Object {
    /// Whether each group with an index above 0 follows a group of the same name.
    pub fn groups_are_chained(&self) -> (r: bool)
        ensures
            r == groups_chained(self@.groups),
    {
        let mut i: usize = 1;
        while i < self.groups.len()
            invariant
                1 <= i,
                forall|k: int| 0 < k < i && k < self@.groups.len() ==> #[trigger] self@.groups[k].index
                    == 0 || self@.groups[k].name == self@.groups[k - 1].name,
            decreases self.groups.len() - i,
        {
            let g = &self.groups[i];
            if g.index != 0 && g.name != self.groups[i - 1].name {
                assert(!(self@.groups[i as int].index == 0 || self@.groups[i as int].name
                    == self@.groups[i - 1].name));
                return false;
            }
            i = i + 1;
        }
        true
    }
}

impl ObjData {
    /// Whether every object's groups are chained, which writing asks.
    pub fn groups_are_chained(&self) -> (r: bool)
        ensures
            r == data_chained(self@),
    {
        let mut i: usize = 0;
        while i < self.objects.len()
            invariant
                i <= self.objects@.len(),
                forall|k: int| 0 <= k < i ==> groups_chained(#[trigger] self@.objects[k].groups),
            decreases self.objects.len() - i,
        {
            if !self.objects[i].groups_are_chained() {
                assert(self@.objects[i as int] == self.objects@[i as int]@);
                return false;
            }
            i = i + 1;
        }
        true
    }
}

/// A value that writes itself as `.obj` text.
pub trait WriteToBuf {
    /// The text written.
    spec fn text(&self) -> Seq<char>;

    /// Whether the value can be written.
    spec fn writable(&self) -> bool;

    /// Appends the text to `out`.
    fn write_to_buf(&self, out: &mut String)
        requires
            self.writable(),
        ensures
            final(out)@ == old(out)@ + self.text(),
    ;
}

/// Appends how vertex `t` is written to `out`.
pub fn write_tuple(out: &mut String, t: IndexTuple)
    ensures
        final(out)@ == old(out)@ + tuple_text(t),
{
    write_dec(out, t.0 as u128 + 1);
    match (t.1, t.2) {
        (None, None) => {},
        (Some(ti), None) => {
            out.append("/");
            write_dec(out, ti as u128 + 1);
        },
        (None, Some(ni)) => {
            out.append("//");
            write_dec(out, ni as u128 + 1);
        },
        (Some(ti), Some(ni)) => {
            out.append("/");
            write_dec(out, ti as u128 + 1);
            out.append("/");
            write_dec(out, ni as u128 + 1);
        },
    }
    assert(final(out)@ =~= old(out)@ + tuple_text(t));
}

impl WriteToBuf for SimplePolygon {
    open spec fn text(&self) -> Seq<char> {
        poly_text(self@)
    }

    open spec fn writable(&self) -> bool {
        true
    }

    fn write_to_buf(&self, out: &mut String) {
        let ghost tts = Seq::new(self@.len(), |i: int| tuple_text(self@[i]));
        let ghost base = out@ + "f"@;
        out.append("f");
        let mut i: usize = 0;
        while i < self.0.len()
            invariant
                i <= self@.len(),
                tts == Seq::new(self@.len(), |i: int| tuple_text(self@[i])),
                out@ == base + spaced(tts.take(i as int)),
            decreases self.0.len() - i,
        {
            assert(tts.take(i + 1).drop_last() =~= tts.take(i as int));
            out.append(" ");
            write_tuple(out, self.0[i]);
            i = i + 1;
            assert(out@ =~= base + spaced(tts.take(i as int)));
        }
        assert(tts.take(i as int) =~= tts);
        out.append("\n");
        assert(final(out)@ =~= old(out)@ + poly_text(self@));
    }
}

impl WriteToBuf for Group {
    open spec fn text(&self) -> Seq<char> {
        group_text(self@)
    }

    open spec fn writable(&self) -> bool {
        true
    }

    fn write_to_buf(&self, out: &mut String) {
        if self.index == 0 {
            out.append("g ");
            out.append(self.name.as_str());
            out.append("\n");
        }
        match &self.material {
            Some(m) => {
                out.append("usemtl ");
                out.append(m.name());
                out.append("\n");
            },
            None => {},
        }
        let ghost base = out@;
        let ghost ps = self@.polys;
        let mut i: usize = 0;
        while i < self.polys.len()
            invariant
                i <= self.polys@.len(),
                ps == self@.polys,
                out@ == base + polys_text(ps.take(i as int)),
            decreases self.polys.len() - i,
        {
            assert(ps.take(i + 1).drop_last() =~= ps.take(i as int));
            self.polys[i].write_to_buf(out);
            i = i + 1;
            assert(out@ =~= base + polys_text(ps.take(i as int)));
        }
        assert(ps.take(i as int) =~= ps);
        assert(final(out)@ =~= old(out)@ + group_text(self@));
    }
}

impl WriteToBuf for Object {
    open spec fn text(&self) -> Seq<char> {
        object_text(self@)
    }

    open spec fn writable(&self) -> bool {
        groups_chained(self@.groups)
    }

    fn write_to_buf(&self, out: &mut String) {
        if !crate::text::eq_lit_str(&self.name, "default") {
            out.append("o ");
            out.append(self.name.as_str());
            out.append("\n");
        }
        let ghost base = out@;
        let ghost gs = self@.groups;
        let mut i: usize = 0;
        while i < self.groups.len()
            invariant
                i <= self.groups@.len(),
                gs == self@.groups,
                out@ == base + groups_text(gs.take(i as int)),
            decreases self.groups.len() - i,
        {
            assert(gs.take(i + 1).drop_last() =~= gs.take(i as int));
            self.groups[i].write_to_buf(out);
            i = i + 1;
            assert(out@ =~= base + groups_text(gs.take(i as int)));
        }
        assert(gs.take(i as int) =~= gs);
        assert(final(out)@ =~= old(out)@ + object_text(self@));
    }
}

/// Appends one line per entry of `cs`: the keyword `kw`, then the numbers.
fn write_coords3(out: &mut String, kw: &str, cs: &Vec<[FloatLit; 3]>)
    ensures
        final(out)@ == old(out)@ + coord_lines(kw@, lits3_views(cs@)),
{
    let ghost base = out@;
    let ghost vs = lits3_views(cs@);
    let mut i: usize = 0;
    while i < cs.len()
        invariant
            i <= cs@.len(),
            vs == lits3_views(cs@),
            out@ == base + coord_lines(kw@, vs.take(i as int)),
        decreases cs.len() - i,
    {
        assert(vs.take(i + 1).drop_last() =~= vs.take(i as int));
        let c = &cs[i];
        out.append(kw);
        out.append(" ");
        out.append(c[0].as_str());
        out.append(" ");
        out.append(c[1].as_str());
        out.append(" ");
        out.append(c[2].as_str());
        out.append("\n");
        let ghost v = vs[i as int];
        proof {
            lemma_spaced3(v);
        }
        i = i + 1;
        assert(out@ =~= base + coord_lines(kw@, vs.take(i as int)));
    }
    assert(vs.take(i as int) =~= vs);
}

fn write_coords2(out: &mut String, kw: &str, cs: &Vec<[FloatLit; 2]>)
    ensures
        final(out)@ == old(out)@ + coord_lines(kw@, lits2_views(cs@)),
{
    let ghost base = out@;
    let ghost vs = lits2_views(cs@);
    let mut i: usize = 0;
    while i < cs.len()
        invariant
            i <= cs@.len(),
            vs == lits2_views(cs@),
            out@ == base + coord_lines(kw@, vs.take(i as int)),
        decreases cs.len() - i,
    {
        assert(vs.take(i + 1).drop_last() =~= vs.take(i as int));
        let c = &cs[i];
        out.append(kw);
        out.append(" ");
        out.append(c[0].as_str());
        out.append(" ");
        out.append(c[1].as_str());
        out.append("\n");
        let ghost v = vs[i as int];
        proof {
            lemma_spaced2(v);
        }
        i = i + 1;
        assert(out@ =~= base + coord_lines(kw@, vs.take(i as int)));
    }
    assert(vs.take(i as int) =~= vs);
}

impl ObjData {
    /// Appends the `.obj` text of these contents to `out`.
    pub fn write_to_buf(&self, out: &mut String)
        requires
            data_chained(self@),
        ensures
            final(out)@ == old(out)@ + data_text(self@),
    {
        write_coords3(out, "v", &self.position);
        write_coords2(out, "vt", &self.texture);
        write_coords3(out, "vn", &self.normal);
        let ghost base = out@;
        let ghost os = self@.objects;
        let mut i: usize = 0;
        while i < self.objects.len()
            invariant
                i <= self.objects@.len(),
                os == self@.objects,
                data_chained(self@),
                out@ == base + objects_text(os.take(i as int)),
            decreases self.objects.len() - i,
        {
            assert(os.take(i + 1).drop_last() =~= os.take(i as int));
            assert(groups_chained(os[i as int].groups));
            self.objects[i].write_to_buf(out);
            i = i + 1;
            assert(out@ =~= base + objects_text(os.take(i as int)));
        }
        assert(os.take(i as int) =~= os);
        let ghost base2 = out@;
        let ghost ls = self@.material_libs;
        let mut j: usize = 0;
        while j < self.material_libs.len()
            invariant
                j <= self.material_libs@.len(),
                ls == self@.material_libs,
                out@ == base2 + libs_text(ls.take(j as int)),
            decreases self.material_libs.len() - j,
        {
            assert(ls.take(j + 1).drop_last() =~= ls.take(j as int));
            out.append("mtllib ");
            out.append(self.material_libs[j].filename.as_str());
            out.append("\n");
            j = j + 1;
            assert(out@ =~= base2 + libs_text(ls.take(j as int)));
        }
        assert(ls.take(j as int) =~= ls);
        assert(final(out)@ =~= old(out)@ + data_text(self@));
    }
}

pub open spec fn opt_line(kw: Seq<char>, v: Option<Seq<char>>) -> Seq<char> {
    match v {
        Some(x) => kw + " "@ + x + "\n"@,
        None => Seq::empty(),
    }
}

pub open spec fn opt_vec_line(kw: Seq<char>, v: Option<Seq<Seq<char>>>) -> Seq<char> {
    match v {
        Some(x) => kw + spaced(x) + "\n"@,
        None => Seq::empty(),
    }
}

/// The decimal text of `v`, with a minus sign where it is negative.
pub open spec fn int_text(v: int) -> Seq<char> {
    if v < 0 {
        "-"@ + dec((-v) as nat)
    } else {
        dec(v as nat)
    }
}

pub open spec fn colors_text(m: MaterialView) -> Seq<char> {
    opt_vec_line("Ka"@, m.ka) + opt_vec_line("Kd"@, m.kd) + opt_vec_line("Ks"@, m.ks)
        + opt_vec_line("Ke"@, m.ke)
}

pub open spec fn scalars_text(m: MaterialView) -> Seq<char> {
    opt_line("Ns"@, m.ns) + opt_line("Ni"@, m.ni) + opt_line("Km"@, m.km) + opt_line("d"@, m.d)
        + opt_line("Tr"@, m.tr)
}

pub open spec fn illum_text(m: MaterialView) -> Seq<char> {
    opt_vec_line("Tf"@, m.tf) + match m.illum {
        Some(v) => "illum "@ + int_text(v as int) + "\n"@,
        None => Seq::empty(),
    }
}

pub open spec fn maps_text(m: MaterialView) -> Seq<char> {
    opt_line("map_Ka"@, m.map_ka) + opt_line("map_Kd"@, m.map_kd) + opt_line("map_Ks"@, m.map_ks)
        + opt_line("map_d"@, m.map_d) + opt_line("refl"@, m.map_refl) + opt_line(
        "bump"@,
        m.map_bump,
    )
}

/// How a material is written: `newmtl`, then one line per property that is set.
pub open spec fn material_text(m: MaterialView) -> Seq<char> {
    "newmtl "@ + m.name + "\n"@ + colors_text(m) + scalars_text(m) + illum_text(m) + maps_text(m)
}

pub open spec fn materials_text(ms: Seq<MaterialView>) -> Seq<char>
    decreases ms.len(),
{
    if ms.len() == 0 {
        Seq::empty()
    } else {
        materials_text(ms.drop_last()) + material_text(ms.last())
    }
}

fn write_opt_lit(out: &mut String, kw: &str, v: &Option<FloatLit>)
    ensures
        final(out)@ == old(out)@ + opt_line(kw@, crate::mtl::opt_lit(*v)),
{
    match v {
        Some(x) => {
            out.append(kw);
            out.append(" ");
            out.append(x.as_str());
            out.append("\n");
        },
        None => {},
    }
    assert(final(out)@ =~= old(out)@ + opt_line(kw@, crate::mtl::opt_lit(*v)));
}

fn write_opt_str(out: &mut String, kw: &str, v: &Option<String>)
    ensures
        final(out)@ == old(out)@ + opt_line(kw@, crate::mtl::opt_str(*v)),
{
    match v {
        Some(x) => {
            out.append(kw);
            out.append(" ");
            out.append(x.as_str());
            out.append("\n");
        },
        None => {},
    }
    assert(final(out)@ =~= old(out)@ + opt_line(kw@, crate::mtl::opt_str(*v)));
}

fn write_opt_vec(out: &mut String, kw: &str, v: &Option<[FloatLit; 3]>)
    ensures
        final(out)@ == old(out)@ + opt_vec_line(kw@, crate::mtl::opt_lits3(*v)),
{
    match v {
        Some(c) => {
            out.append(kw);
            out.append(" ");
            out.append(c[0].as_str());
            out.append(" ");
            out.append(c[1].as_str());
            out.append(" ");
            out.append(c[2].as_str());
            out.append("\n");
            proof {
                lemma_spaced3(lits3(*c));
            }
        },
        None => {},
    }
    assert(final(out)@ =~= old(out)@ + opt_vec_line(kw@, crate::mtl::opt_lits3(*v)));
}

fn write_colors(out: &mut String, m: &Material)
    ensures
        final(out)@ == old(out)@ + colors_text(m@),
{
    write_opt_vec(out, "Ka", &m.ka);
    write_opt_vec(out, "Kd", &m.kd);
    write_opt_vec(out, "Ks", &m.ks);
    write_opt_vec(out, "Ke", &m.ke);
    assert(final(out)@ =~= old(out)@ + colors_text(m@));
}

fn write_scalars(out: &mut String, m: &Material)
    ensures
        final(out)@ == old(out)@ + scalars_text(m@),
{
    write_opt_lit(out, "Ns", &m.ns);
    write_opt_lit(out, "Ni", &m.ni);
    write_opt_lit(out, "Km", &m.km);
    write_opt_lit(out, "d", &m.d);
    write_opt_lit(out, "Tr", &m.tr);
    assert(final(out)@ =~= old(out)@ + scalars_text(m@));
}

fn write_illum(out: &mut String, m: &Material)
    ensures
        final(out)@ == old(out)@ + illum_text(m@),
{
    write_opt_vec(out, "Tf", &m.tf);
    match m.illum {
        Some(v) => {
            out.append("illum ");
            if v < 0 {
                out.append("-");
                write_dec(out, (-(v as i64)) as u128);
            } else {
                write_dec(out, v as u128);
            }
            out.append("\n");
        },
        None => {},
    }
    assert(final(out)@ =~= old(out)@ + illum_text(m@));
}

fn write_maps(out: &mut String, m: &Material)
    ensures
        final(out)@ == old(out)@ + maps_text(m@),
{
    let ghost o0 = out@;
    let ghost v = m@;
    write_opt_str(out, "map_Ka", &m.map_ka);
    write_opt_str(out, "map_Kd", &m.map_kd);
    write_opt_str(out, "map_Ks", &m.map_ks);
    let ghost o1 = out@;
    assert(o1 =~= o0 + (opt_line("map_Ka"@, v.map_ka) + opt_line("map_Kd"@, v.map_kd) + opt_line(
        "map_Ks"@,
        v.map_ks,
    )));
    write_opt_str(out, "map_d", &m.map_d);
    write_opt_str(out, "refl", &m.map_refl);
    write_opt_str(out, "bump", &m.map_bump);
    assert(out@ =~= o1 + (opt_line("map_d"@, v.map_d) + opt_line("refl"@, v.map_refl) + opt_line(
        "bump"@,
        v.map_bump,
    )));
    assert(out@ =~= o0 + maps_text(v));
}

#[verifier::rlimit(50)]
fn write_material(out: &mut String, m: &Material)
    ensures
        final(out)@ == old(out)@ + material_text(m@),
{
    out.append("newmtl ");
    out.append(m.name.as_str());
    out.append("\n");
    let ghost o1 = out@;
    assert(o1 =~= old(out)@ + ("newmtl "@ + m@.name + "\n"@));
    write_colors(out, m);
    write_scalars(out, m);
    let ghost o2 = out@;
    assert(o2 =~= o1 + (colors_text(m@) + scalars_text(m@)));
    write_illum(out, m);
    write_maps(out, m);
    assert(out@ =~= o2 + (illum_text(m@) + maps_text(m@)));
    assert(final(out)@ =~= old(out)@ + material_text(m@));
}

impl Mtl {
    /// Appends the `.mtl` text of this library to `out`.
    pub fn write_to_buf(&self, out: &mut String)
        ensures
            final(out)@ == old(out)@ + materials_text(self@.materials),
    {
        let ghost base = out@;
        let ghost ms = self@.materials;
        let mut i: usize = 0;
        while i < self.materials.len()
            invariant
                i <= self.materials@.len(),
                ms == self@.materials,
                out@ == base + materials_text(ms.take(i as int)),
            decreases self.materials.len() - i,
        {
            assert(ms.take(i + 1).drop_last() =~= ms.take(i as int));
            let m: &Material = &self.materials[i];
            write_material(out, m);
            i = i + 1;
            assert(out@ =~= base + materials_text(ms.take(i as int)));
        }
        assert(ms.take(i as int) =~= ms);
    }
}

} // verus!
