//! The `.obj` geometry format: its data model and its reader.

use std::sync::Arc;
use vstd::prelude::*;

use crate::mtl::{lits3, Material, MaterialView, Mtl, MtlError, MtlView};
use crate::text::{
    chars_of, eq_lit, name_in_line, name_text, int_within, is_float_lit, join_words, lines_of, pieces, split_lines,
    split_on, string_of, views, words_of, FloatLit, parse_isize,
};

verus! {

/// The name of the object that holds what comes before the first `o` command, and of a group
/// opened without a `g` command.
pub open spec fn default_name() -> Seq<char> {
    "default"@
}

/// How strictly a `.obj` text is read.
#[derive(Copy, Clone, Debug)]
pub struct LoadConfig {
    /// Whether a line whose command is not of the `.obj` format is an error. Where it is not,
    /// such a line is skipped. Comments are skipped either way.
    pub strict: bool,
}

impl Default for LoadConfig {
    fn default() -> (r: LoadConfig)
        ensures
            r.strict,
    {
        LoadConfig { strict: true }
    }
}

/// The position, texture and normal indices of one vertex of a polygon, counted from zero.
#[derive(Debug, Clone, Copy, Hash, PartialEq, Eq, Structural, PartialOrd, Ord)]
pub struct IndexTuple(pub usize, pub Option<usize>, pub Option<usize>);

/// A polygon with any number of vertices.
#[derive(Debug, Clone, Hash, PartialEq)]
pub struct SimplePolygon(pub Vec<IndexTuple>);

impl View for SimplePolygon {
    type V = Seq<IndexTuple>;

    open spec fn view(&self) -> Seq<IndexTuple> {
        self.0@
    }
}

/// Errors reading a `.obj` text.
#[derive(Debug)]
pub enum ObjError {
    Io(std::io::Error),
    /// A vertex of an `f` command cannot be read.
    MalformedFaceGroup { line_number: usize, group: String },
    /// A command lacks arguments or has arguments that cannot be read.
    ArgumentListFailure { line_number: usize, list: String },
    /// The command is not one of the `.obj` format.
    UnexpectedCommand { line_number: usize, command: String },
    /// `mtllib` without a file name.
    MissingMTLName { line_number: usize },
    /// A vertex position numbered zero.
    ZeroVertexNumber { line_number: usize },
    /// A polygon that is no triangle and no quad, where only those can be taken.
    GenMeshWrongNumberOfVertsInPolygon { vert_count: usize },
}

pub enum ObjErrorView {
    Io,
    MalformedFaceGroup { line_number: nat, group: Seq<char> },
    ArgumentListFailure { line_number: nat, list: Seq<char> },
    UnexpectedCommand { line_number: nat, command: Seq<char> },
    MissingMTLName { line_number: nat },
    ZeroVertexNumber { line_number: nat },
    GenMeshWrongNumberOfVertsInPolygon { vert_count: nat },
}

impl From<std::io::Error> for ObjError {
    fn from(e: std::io::Error) -> (r: ObjError)
        ensures
            r == ObjError::Io(e),
    {
        ObjError::Io(e)
    }
}

impl vstd::std_specs::convert::FromSpecImpl<std::io::Error> for ObjError {
    open spec fn obeys_from_spec() -> bool {
        true
    }

    open spec fn from_spec(e: std::io::Error) -> ObjError {
        ObjError::Io(e)
    }
}

impl From<Vec<(String, MtlError)>> for MtlLibsLoadError {
    fn from(e: Vec<(String, MtlError)>) -> (r: MtlLibsLoadError)
        ensures
            r == MtlLibsLoadError(e),
    {
        MtlLibsLoadError(e)
    }
}

impl vstd::std_specs::convert::FromSpecImpl<Vec<(String, MtlError)>> for MtlLibsLoadError {
    open spec fn obeys_from_spec() -> bool {
        true
    }

    open spec fn from_spec(e: Vec<(String, MtlError)>) -> MtlLibsLoadError {
        MtlLibsLoadError(e)
    }
}

impl View for ObjError {
    type V = ObjErrorView;

    open spec fn view(&self) -> ObjErrorView {
        match self {
            ObjError::Io(_) => ObjErrorView::Io,
            ObjError::MalformedFaceGroup { line_number, group } => ObjErrorView::MalformedFaceGroup {
                line_number: *line_number as nat,
                group: group@,
            },
            ObjError::ArgumentListFailure {
                line_number,
                list,
            } => ObjErrorView::ArgumentListFailure { line_number: *line_number as nat, list: list@ },
            ObjError::UnexpectedCommand {
                line_number,
                command,
            } => ObjErrorView::UnexpectedCommand {
                line_number: *line_number as nat,
                command: command@,
            },
            ObjError::MissingMTLName { line_number } => ObjErrorView::MissingMTLName {
                line_number: *line_number as nat,
            },
            ObjError::ZeroVertexNumber { line_number } => ObjErrorView::ZeroVertexNumber {
                line_number: *line_number as nat,
            },
            ObjError::GenMeshWrongNumberOfVertsInPolygon {
                vert_count,
            } => ObjErrorView::GenMeshWrongNumberOfVertsInPolygon { vert_count: *vert_count as nat },
        }
    }
}

/// The material libraries that failed to load, each with its file name and its error.
#[derive(Debug)]
pub struct MtlLibsLoadError(pub Vec<(String, MtlError)>);

/// The material of a group: the name that `usemtl` gave, or the material found under it.
#[derive(Debug, Clone, PartialEq)]
pub enum ObjMaterial {
    Ref(String),
    Mtl(Arc<Material>),
}

pub enum ObjMaterialView {
    Ref(Seq<char>),
    Mtl(MaterialView),
}

impl View for ObjMaterial {
    type V = ObjMaterialView;

    open spec fn view(&self) -> ObjMaterialView {
        match self {
            ObjMaterial::Ref(s) => ObjMaterialView::Ref(s@),
            ObjMaterial::Mtl(m) => ObjMaterialView::Mtl((**m)@),
        }
    }
}

pub open spec fn material_name(m: ObjMaterialView) -> Seq<char> {
    match m {
        ObjMaterialView::Ref(s) => s,
        ObjMaterialView::Mtl(mv) => mv.name,
    }
}

impl ObjMaterial {
    /// The name of the material.
    pub fn name(&self) -> (r: &str)
        ensures
            r@ == material_name(self@),
    {
        match self {
            ObjMaterial::Ref(name) => name.as_str(),
            ObjMaterial::Mtl(material) => material.name.as_str(),
        }
    }
}

pub open spec fn opt_mat(o: Option<ObjMaterial>) -> Option<ObjMaterialView> {
    match o {
        Some(m) => Some(m@),
        None => None,
    }
}

pub struct GroupView {
    pub name: Seq<char>,
    pub index: nat,
    pub material: Option<ObjMaterialView>,
    pub polys: Seq<Seq<IndexTuple>>,
}

/// A group of polygons, with at most one material.
#[derive(Debug, Clone, PartialEq)]
pub struct Group {
    /// The name that `g` gave.
    pub name: String,
    /// Tells apart the groups of one name that a change of material split; 0 for the first.
    pub index: usize,
    /// The material that `usemtl` gave.
    pub material: Option<ObjMaterial>,
    /// The polygons that `f` gave.
    pub polys: Vec<SimplePolygon>,
}

pub open spec fn poly_views(ps: Seq<SimplePolygon>) -> Seq<Seq<IndexTuple>> {
    Seq::new(ps.len(), |i: int| ps[i]@)
}

impl View for Group {
    type V = GroupView;

    open spec fn view(&self) -> GroupView {
        GroupView {
            name: self.name@,
            index: self.index as nat,
            material: opt_mat(self.material),
            polys: poly_views(self.polys@),
        }
    }
}

/// A group of the given name with index 0, no material and no polygon.
pub open spec fn new_group(name: Seq<char>) -> GroupView {
    GroupView { name, index: 0, material: None, polys: Seq::empty() }
}

impl Group {
    pub fn new(name: String) -> (r: Group)
        ensures
            r@ == new_group(name@),
    {
        let r = Group { name, index: 0, material: None, polys: Vec::new() };
        assert(r@.polys =~= Seq::<Seq<IndexTuple>>::empty());
        r
    }
}

pub open spec fn opt_group(o: Option<Group>) -> Option<GroupView> {
    match o {
        Some(g) => Some(g@),
        None => None,
    }
}

pub struct ObjectView {
    pub name: Seq<char>,
    pub groups: Seq<GroupView>,
}

/// An object: what an `o` command names, and its groups.
#[derive(Debug, Clone, PartialEq)]
pub struct Object {
    pub name: String,
    pub groups: Vec<Group>,
}

pub open spec fn group_views(gs: Seq<Group>) -> Seq<GroupView> {
    Seq::new(gs.len(), |i: int| gs[i]@)
}

impl View for Object {
    type V = ObjectView;

    open spec fn view(&self) -> ObjectView {
        ObjectView { name: self.name@, groups: group_views(self.groups@) }
    }
}

impl Object {
    pub fn new(name: String) -> (r: Object)
        ensures
            r@ == (ObjectView { name: name@, groups: Seq::empty() }),
    {
        let r = Object { name, groups: Vec::new() };
        assert(r@.groups =~= Seq::<GroupView>::empty());
        r
    }
}

pub struct ObjDataView {
    pub position: Seq<Seq<Seq<char>>>,
    pub texture: Seq<Seq<Seq<char>>>,
    pub normal: Seq<Seq<Seq<char>>>,
    pub objects: Seq<ObjectView>,
    pub material_libs: Seq<MtlView>,
}

/// The contents of a `.obj` text.
#[derive(Clone, Debug, PartialEq)]
pub struct ObjData {
    /// Vertex positions.
    pub position: Vec<[FloatLit; 3]>,
    /// Texture coordinates.
    pub texture: Vec<[FloatLit; 2]>,
    /// Normals.
    pub normal: Vec<[FloatLit; 3]>,
    /// The objects, the one before any `o` command first.
    pub objects: Vec<Object>,
    /// The material libraries that `mtllib` names.
    pub material_libs: Vec<Mtl>,
}

pub open spec fn lits2(a: [FloatLit; 2]) -> Seq<Seq<char>> {
    seq![a@[0]@, a@[1]@]
}

pub open spec fn lits3_views(v: Seq<[FloatLit; 3]>) -> Seq<Seq<Seq<char>>> {
    Seq::new(v.len(), |i: int| lits3(v[i]))
}

pub open spec fn lits2_views(v: Seq<[FloatLit; 2]>) -> Seq<Seq<Seq<char>>> {
    Seq::new(v.len(), |i: int| lits2(v[i]))
}

pub open spec fn object_views(os: Seq<Object>) -> Seq<ObjectView> {
    Seq::new(os.len(), |i: int| os[i]@)
}

pub open spec fn mtl_views(ms: Seq<Mtl>) -> Seq<MtlView> {
    Seq::new(ms.len(), |i: int| ms[i]@)
}

impl View for ObjData {
    type V = ObjDataView;

    open spec fn view(&self) -> ObjDataView {
        ObjDataView {
            position: lits3_views(self.position@),
            texture: lits2_views(self.texture@),
            normal: lits3_views(self.normal@),
            objects: object_views(self.objects@),
            material_libs: mtl_views(self.material_libs@),
        }
    }
}

impl Default for ObjData {
    fn default() -> (r: ObjData)
        ensures
            r@ == empty_data(),
    {
        let r = ObjData {
            position: Vec::new(),
            texture: Vec::new(),
            normal: Vec::new(),
            objects: Vec::new(),
            material_libs: Vec::new(),
        };
        assert(r@.position =~= Seq::<Seq<Seq<char>>>::empty());
        assert(r@.texture =~= Seq::<Seq<Seq<char>>>::empty());
        assert(r@.normal =~= Seq::<Seq<Seq<char>>>::empty());
        assert(r@.objects =~= Seq::<ObjectView>::empty());
        assert(r@.material_libs =~= Seq::<MtlView>::empty());
        r
    }
}

pub open spec fn empty_data() -> ObjDataView {
    ObjDataView {
        position: Seq::empty(),
        texture: Seq::empty(),
        normal: Seq::empty(),
        objects: Seq::empty(),
        material_libs: Seq::empty(),
    }
}

// ---------------------------------------------------------------------------------------------
// Reading

/// Turns a 1-based vertex number, or a negative one counted back from the `len`-th vertex,
/// into a 0-based index. Zero numbers no vertex, and a negative one cannot reach before the
/// first.
pub open spec fn normalize_spec(idx: int, len: int) -> Option<int> {
    if idx < 0 {
        if len + idx >= 0 {
            Some(len + idx)
        } else {
            None
        }
    } else if idx > 0 {
        Some(idx - 1)
    } else {
        None
    }
}

/// `idx` turned into an index that names one of `len` vertices.
pub open spec fn index_among(idx: int, len: int) -> Option<int> {
    match normalize_spec(idx, len) {
        Some(i) => if i < len {
            Some(i)
        } else {
            None
        },
        None => None,
    }
}

/// The texture or normal part `k` of the parts `parts` of a vertex field on line `ln`, an
/// index among `len`: absent where the part is missing, empty or no integer; an error where it
/// is zero or names none of the `len`.
pub open spec fn part_index(parts: Seq<Seq<char>>, k: int, len: nat, ln: nat, field: Seq<char>) -> Result<
    Option<usize>,
    ObjErrorView,
> {
    if parts.len() > k {
        match int_within(parts[k], isize::MIN as int, isize::MAX as int) {
            None => Ok(None),
            Some(v) => if v == 0 {
                Err(ObjErrorView::ZeroVertexNumber { line_number: ln })
            } else {
                match index_among(v, len as int) {
                    Some(i) => Ok(Some(i as usize)),
                    None => Err(ObjErrorView::MalformedFaceGroup { line_number: ln, group: field }),
                }
            },
        }
    } else {
        Ok(None)
    }
}

/// The vertex that the field `field` of an `f` command on line `ln` names, where `np`, `nt`
/// and `nn` positions, texture coordinates and normals have been declared. The position part
/// is required; the texture and normal parts are optional, and one that is empty or no integer
/// counts as absent. A zero part, or one that names no vertex declared so far, is an error.
pub open spec fn resolve_spec(field: Seq<char>, np: nat, nt: nat, nn: nat, ln: nat) -> Result<
    IndexTuple,
    ObjErrorView,
> {
    let parts = pieces(field, '/');
    let malformed = ObjErrorView::MalformedFaceGroup { line_number: ln, group: field };
    match int_within(parts[0], isize::MIN as int, isize::MAX as int) {
        None => Err(malformed),
        Some(p) => if p == 0 {
            Err(ObjErrorView::ZeroVertexNumber { line_number: ln })
        } else {
            match index_among(p, np as int) {
                None => Err(malformed),
                Some(pi) => match part_index(parts, 1, nt, ln, field) {
                    Err(e) => Err(e),
                    Ok(t) => match part_index(parts, 2, nn, ln, field) {
                        Err(e) => Err(e),
                        Ok(n) => Ok(IndexTuple(pi as usize, t, n)),
                    },
                },
            }
        },
    }
}

/// The vertices of the fields `fs` of an `f` command, or the error of the first field that
/// fails.
pub open spec fn face_spec(fs: Seq<Seq<char>>, np: nat, nt: nat, nn: nat, ln: nat) -> Result<
    Seq<IndexTuple>,
    ObjErrorView,
>
    decreases fs.len(),
{
    if fs.len() == 0 {
        Ok(Seq::empty())
    } else {
        match face_spec(fs.drop_last(), np, nt, nn, ln) {
            Ok(t) => match resolve_spec(fs.last(), np, nt, nn, ln) {
                Ok(x) => Ok(t.push(x)),
                Err(e) => Err(e),
            },
            Err(e) => Err(e),
        }
    }
}

/// The polygon of the fields `fs` of an `f` command: at least three vertices.
pub open spec fn poly_spec(fs: Seq<Seq<char>>, np: nat, nt: nat, nn: nat, ln: nat) -> Result<
    Seq<IndexTuple>,
    ObjErrorView,
> {
    if fs.len() < 3 {
        Err(ObjErrorView::ArgumentListFailure { line_number: ln, list: join_words(fs) })
    } else {
        face_spec(fs, np, nt, nn, ln)
    }
}

/// The reader's state between two lines: what is complete, the object being read and the
/// group being read.
pub struct ObjState {
    pub data: ObjDataView,
    pub object: ObjectView,
    pub group: Option<GroupView>,
}

pub open spec fn initial_state() -> ObjState {
    ObjState {
        data: empty_data(),
        object: ObjectView { name: default_name(), groups: Seq::empty() },
        group: None,
    }
}

/// The object's groups, the group being read closed into them.
pub open spec fn close_group(o: ObjectView, g: Option<GroupView>) -> ObjectView {
    match g {
        Some(g) => ObjectView { name: o.name, groups: o.groups.push(g) },
        None => o,
    }
}

/// The numbers that a `v`, `vt` or `vn` line gives: the first `n` arguments.
pub open spec fn coords_spec(a: Seq<Seq<char>>, n: nat, ln: nat) -> Result<
    Seq<Seq<char>>,
    ObjErrorView,
> {
    if a.len() >= n && forall|k: int| 0 <= k < n ==> is_float_lit(#[trigger] a[k]) {
        Ok(a.take(n as int))
    } else {
        Err(
            ObjErrorView::ArgumentListFailure {
                line_number: ln,
                list: join_words(if a.len() >= n { a.take(n as int) } else { a }),
            },
        )
    }
}

pub open spec fn with_data(st: ObjState, d: ObjDataView) -> ObjState {
    ObjState { data: d, object: st.object, group: st.group }
}

/// What line `ln`, whose text is `line`, makes of the state.
pub open spec fn obj_step(st: ObjState, line: Seq<char>, ln: nat, strict: bool) -> Result<
    ObjState,
    ObjErrorView,
> {
    let w = words_of(line);
    let d = st.data;
    let a = w.drop_first();
    if w.len() == 0 {
        Ok(st)
    } else if w[0] == "v"@ {
        match coords_spec(a, 3, ln) {
            Ok(c) => Ok(with_data(st, ObjDataView { position: d.position.push(c), ..d })),
            Err(e) => Err(e),
        }
    } else if w[0] == "vt"@ {
        match coords_spec(a, 2, ln) {
            Ok(c) => Ok(with_data(st, ObjDataView { texture: d.texture.push(c), ..d })),
            Err(e) => Err(e),
        }
    } else if w[0] == "vn"@ {
        match coords_spec(a, 3, ln) {
            Ok(c) => Ok(with_data(st, ObjDataView { normal: d.normal.push(c), ..d })),
            Err(e) => Err(e),
        }
    } else if w[0] == "f"@ {
        match poly_spec(a, d.position.len(), d.texture.len(), d.normal.len(), ln) {
            Ok(p) => {
                let g = match st.group {
                    Some(g) => g,
                    None => new_group(default_name()),
                };
                Ok(
                    ObjState {
                        data: d,
                        object: st.object,
                        group: Some(GroupView { polys: g.polys.push(p), ..g }),
                    },
                )
            },
            Err(e) => Err(e),
        }
    } else if w[0] == "o"@ {
        Ok(
            ObjState {
                data: ObjDataView {
                    objects: d.objects.push(close_group(st.object, st.group)),
                    ..d
                },
                object: ObjectView {
                    name: match name_text(line) {
                        Some(n) => if n.len() > 0 {
                            n
                        } else {
                            default_name()
                        },
                        None => default_name(),
                    },
                    groups: Seq::empty(),
                },
                group: None,
            },
        )
    } else if w[0] == "g"@ {
        Ok(
            ObjState {
                data: d,
                object: close_group(st.object, st.group),
                group: match name_text(line) {
                    Some(n) => Some(new_group(n)),
                    None => None,
                },
            },
        )
    } else if w[0] == "mtllib"@ {
        if a.len() == 0 {
            Err(ObjErrorView::MissingMTLName { line_number: ln })
        } else {
            Ok(
                with_data(
                    st,
                    ObjDataView {
                        material_libs: d.material_libs.push(
                            MtlView { filename: join_words(a), materials: Seq::empty() },
                        ),
                        ..d
                    },
                ),
            )
        }
    } else if w[0] == "usemtl"@ {
        let g = match st.group {
            Some(g) => g,
            None => new_group(default_name()),
        };
        let m = if a.len() == 0 {
            None
        } else {
            Some(ObjMaterialView::Ref(a[0]))
        };
        if g.material is Some {
            Ok(
                ObjState {
                    data: d,
                    object: ObjectView { name: st.object.name, groups: st.object.groups.push(g) },
                    group: Some(
                        GroupView {
                            name: g.name,
                            index: g.index + 1,
                            material: m,
                            polys: Seq::empty(),
                        },
                    ),
                },
            )
        } else {
            Ok(
                ObjState {
                    data: d,
                    object: st.object,
                    group: Some(GroupView { material: m, ..g }),
                },
            )
        }
    } else if w[0] == "s"@ || w[0] == "l"@ {
        Ok(st)
    } else if strict && !crate::mtl::is_comment(w[0]) {
        Err(ObjErrorView::UnexpectedCommand { line_number: ln, command: w[0] })
    } else {
        Ok(st)
    }
}

/// The state after the lines `ls`, or the first error.
pub open spec fn obj_run(ls: Seq<Seq<char>>, strict: bool) -> Result<ObjState, ObjErrorView>
    decreases ls.len(),
{
    if ls.len() == 0 {
        Ok(initial_state())
    } else {
        match obj_run(ls.drop_last(), strict) {
            Ok(st) => obj_step(st, ls.last(), (ls.len() - 1) as nat, strict),
            Err(e) => Err(e),
        }
    }
}

/// What is complete once the input ends: the pending group and object closed.
pub open spec fn finish(st: ObjState) -> ObjDataView {
    ObjDataView {
        objects: st.data.objects.push(close_group(st.object, st.group)),
        ..st.data
    }
}

/// The contents of the `.obj` text `text`, or the first error.
pub open spec fn obj_parse(text: Seq<char>, strict: bool) -> Result<ObjDataView, ObjErrorView> {
    match obj_run(lines_of(text), strict) {
        Ok(st) => Ok(finish(st)),
        Err(e) => Err(e),
    }
}

/// Turns a 1-based vertex number, or a negative one counted back from the `len`-th vertex,
/// into a 0-based index: `None` for zero, and for a negative number that reaches before the
/// first vertex.
pub fn normalize(idx: isize, len: usize) -> (r: Option<usize>)
    ensures
        match normalize_spec(idx as int, len as int) {
            Some(v) => r == Some(v as usize),
            None => r is None,
        },
{
    if idx < 0 {
        let back: usize = if idx == isize::MIN {
            (isize::MAX as usize) + 1
        } else {
            (-idx) as usize
        };
        if back <= len {
            Some(len - back)
        } else {
            None
        }
    } else if idx > 0 {
        Some(idx as usize - 1)
    } else {
        None
    }
}

/// `idx` turned into an index that names one of `len` vertices.
fn index_in(idx: isize, len: usize) -> (r: Option<usize>)
    ensures
        match index_among(idx as int, len as int) {
            Some(v) => r == Some(v as usize),
            None => r is None,
        },
{
    match normalize(idx, len) {
        Some(i) => if i < len {
            Some(i)
        } else {
            None
        },
        None => None,
    }
}

/// The texture or normal part `k` of `parts`, as `part_index` gives it.
fn index_part(parts: &Vec<Vec<char>>, k: usize, len: usize, line_number: usize, field: &Vec<char>) -> (r: Result<
    Option<usize>,
    ObjError,
>)
    ensures
        match r {
            Ok(x) => part_index(views(parts@), k as int, len as nat, line_number as nat, field@)
                == Ok::<_, ObjErrorView>(x),
            Err(e) => part_index(views(parts@), k as int, len as nat, line_number as nat, field@)
                == Err::<Option<usize>, _>(e@),
        },
{
    if parts.len() <= k {
        return Ok(None);
    }
    assert(parts@[k as int]@ == views(parts@)[k as int]);
    match parse_isize(&parts[k]) {
        None => Ok(None),
        Some(v) => {
            if v == 0 {
                Err(ObjError::ZeroVertexNumber { line_number })
            } else {
                match index_in(v, len) {
                    Some(i) => Ok(Some(i)),
                    None => Err(
                        ObjError::MalformedFaceGroup {
                            line_number,
                            group: string_of(field.as_slice()),
                        },
                    ),
                }
            }
        },
    }
}

pub open spec fn state_of(d: ObjData, o: Object, g: Option<Group>) -> ObjState {
    ObjState { data: d@, object: o@, group: opt_group(g) }
}

impl ObjData {
    /// The vertex that the field `group` of an `f` command on line `line_number` names.
    fn parse_group(&self, line_number: usize, group: &Vec<char>) -> (r: Result<IndexTuple, ObjError>)
        ensures
            match r {
                Ok(t) => resolve_spec(
                    group@,
                    self@.position.len(),
                    self@.texture.len(),
                    self@.normal.len(),
                    line_number as nat,
                ) == Ok::<_, ObjErrorView>(t),
                Err(e) => resolve_spec(
                    group@,
                    self@.position.len(),
                    self@.texture.len(),
                    self@.normal.len(),
                    line_number as nat,
                ) == Err::<IndexTuple, _>(e@),
            },
    {
        let parts = split_on(group, '/');
        proof {
            crate::text::lemma_pieces_nonempty(group@, '/');
        }
        assert(parts@[0]@ == views(parts@)[0]);
        let p = match parse_isize(&parts[0]) {
            Some(p) => p,
            None => {
                return Err(
                    ObjError::MalformedFaceGroup {
                        line_number,
                        group: string_of(group.as_slice()),
                    },
                );
            },
        };
        if p == 0 {
            return Err(ObjError::ZeroVertexNumber { line_number });
        }
        let pi = match index_in(p, self.position.len()) {
            Some(pi) => pi,
            None => {
                return Err(
                    ObjError::MalformedFaceGroup {
                        line_number,
                        group: string_of(group.as_slice()),
                    },
                );
            },
        };
        let t = index_part(&parts, 1, self.texture.len(), line_number, group)?;
        let n = index_part(&parts, 2, self.normal.len(), line_number, group)?;
        Ok(IndexTuple(pi, t, n))
    }

    /// The polygon that the fields `groups` of an `f` command on line `line_number` give.
    fn parse_face(&self, line_number: usize, groups: &Vec<Vec<char>>) -> (r: Result<
        SimplePolygon,
        ObjError,
    >)
        ensures
            match r {
                Ok(p) => poly_spec(
                    views(groups@),
                    self@.position.len(),
                    self@.texture.len(),
                    self@.normal.len(),
                    line_number as nat,
                ) == Ok::<_, ObjErrorView>(p@),
                Err(e) => poly_spec(
                    views(groups@),
                    self@.position.len(),
                    self@.texture.len(),
                    self@.normal.len(),
                    line_number as nat,
                ) == Err::<Seq<IndexTuple>, _>(e@),
            },
    {
        if groups.len() < 3 {
            return Err(
                ObjError::ArgumentListFailure {
                    line_number,
                    list: crate::mtl::join_words_exec(groups),
                },
            );
        }
        let ghost fs = views(groups@);
        let ghost (np, nt, nn, ln) = (
            self@.position.len(),
            self@.texture.len(),
            self@.normal.len(),
            line_number as nat,
        );
        let mut ret: Vec<IndexTuple> = Vec::new();
        let mut i: usize = 0;
        while i < groups.len()
            invariant
                i <= groups@.len(),
                fs == views(groups@),
                np == self@.position.len(),
                nt == self@.texture.len(),
                nn == self@.normal.len(),
                ln == line_number as nat,
                groups@.len() >= 3,
                face_spec(fs.take(i as int), np, nt, nn, ln) == Ok::<_, ObjErrorView>(ret@),
            decreases groups.len() - i,
        {
            assert(fs.take(i + 1).drop_last() =~= fs.take(i as int));
            assert(fs.take(i + 1).last() == groups@[i as int]@);
            let t = self.parse_group(line_number, &groups[i]);
            match t {
                Ok(t) => {
                    ret.push(t);
                },
                Err(e) => {
                    proof {
                        lemma_face_err(fs, i + 1, np, nt, nn, ln);
                    }
                    return Err(e);
                },
            }
            i = i + 1;
        }
        assert(fs.take(i as int) =~= fs);
        Ok(SimplePolygon(ret))
    }

    /// The first `n` arguments `a` of a `v`, `vt` or `vn` command on line `line_number`.
    fn parse_coords(line_number: usize, a: &Vec<Vec<char>>, n: usize) -> (r: Result<
        Vec<FloatLit>,
        ObjError,
    >)
        ensures
            match r {
                Ok(c) => c@.len() == n && coords_spec(views(a@), n as nat, line_number as nat)
                    == Ok::<_, ObjErrorView>(Seq::new(n as nat, |k: int| c@[k]@)),
                Err(e) => coords_spec(views(a@), n as nat, line_number as nat) == Err::<
                    Seq<Seq<char>>,
                    _,
                >(e@),
            },
    {
        let ghost av = views(a@);
        let mut c: Vec<FloatLit> = Vec::new();
        let mut ok = a.len() >= n;
        let mut k: usize = 0;
        while ok && k < n
            invariant
                av == views(a@),
                ok ==> a@.len() >= n,
                k <= n,
                c@.len() == k,
                ok ==> forall|j: int| 0 <= j < k ==> is_float_lit(#[trigger] av[j]) && c@[j]@ == av[j],
                !ok ==> !(a@.len() >= n && forall|j: int| 0 <= j < n ==> is_float_lit(#[trigger] av[j])),
            decreases (n - k) * 2 + if ok {
                1int
            } else {
                0int
            },
        {
            match FloatLit::from_chars(&a[k]) {
                Some(x) => {
                    c.push(x);
                    k = k + 1;
                },
                None => {
                    assert(!is_float_lit(av[k as int]));
                    ok = false;
                },
            }
        }
        if ok {
            assert(Seq::new(n as nat, |j: int| c@[j]@) =~= av.take(n as int));
            Ok(c)
        } else {
            let list = if a.len() >= n {
                crate::mtl::join_first(a, n)
            } else {
                crate::mtl::join_words_exec(a)
            };
            Err(ObjError::ArgumentListFailure { line_number, list })
        }
    }
}

/// The name that the arguments `a` of `o` or `g` give: all of them, joined by single spaces.
fn name_of(a: &Vec<Vec<char>>) -> (r: String)
    ensures
        r@ == join_words(views(a@)),
{
    crate::mtl::join_words_exec(a)
}

fn default_string() -> (r: String)
    ensures
        r@ == default_name(),
{
    String::from_str("default")
}

fn take3(c: Vec<FloatLit>) -> (r: [FloatLit; 3])
    requires
        c@.len() == 3,
    ensures
        lits3(r) == Seq::new(3, |k: int| c@[k]@),
{
    let ghost c0 = c@;
    let mut c = c;
    let z = c.pop().unwrap();
    let y = c.pop().unwrap();
    let x = c.pop().unwrap();
    let r = [x, y, z];
    assert(lits3(r) =~= Seq::new(3, |k: int| c0[k]@));
    r
}

fn take2(c: Vec<FloatLit>) -> (r: [FloatLit; 2])
    requires
        c@.len() == 2,
    ensures
        lits2(r) == Seq::new(2, |k: int| c@[k]@),
{
    let ghost c0 = c@;
    let mut c = c;
    let y = c.pop().unwrap();
    let x = c.pop().unwrap();
    let r = [x, y];
    assert(lits2(r) =~= Seq::new(2, |k: int| c0[k]@));
    r
}

/// Closes the pending group, if any, into `object`.
fn close_into(object: &mut Object, group: Option<Group>)
    ensures
        final(object)@ == close_group(old(object)@, opt_group(group)),
{
    match group {
        Some(g) => {
            object.groups.push(g);
            assert(final(object)@.groups =~= old(object)@.groups.push(opt_group(group)->0));
        },
        None => {},
    }
}

/// Reads line `ln`, whose characters are `line`, into the reader's state.
fn parse_line(
    dat: &mut ObjData,
    object: &mut Object,
    group: &mut Option<Group>,
    line: &Vec<char>,
    ln: usize,
    strict: bool,
) -> (r: Result<(), ObjError>)
    requires
        ln < usize::MAX,
        *old(group) matches Some(g) ==> g.index <= ln,
    ensures
        *final(group) matches Some(g) ==> g.index <= ln + 1,
        match obj_step(state_of(*old(dat), *old(object), *old(group)), line@, ln as nat, strict) {
            Ok(st) => r is Ok && state_of(*final(dat), *final(object), *final(group)) == st,
            Err(e) => r matches Err(x) && x@ == e,
        },
{
    let ghost st = state_of(*dat, *object, *group);
    let ghost w = words_of(line@);
    let name = name_in_line(line);
    let mut p = crate::mtl::Parser::new(line);
    proof {
        crate::text::lemma_words_nonempty(line@);
    }
    let cmd = match p.next_word() {
        None => {
            return Ok(());
        },
        Some(c) => c,
    };
    let a = p.take_rest();
    assert(views(a@) == w.drop_first());
    if eq_lit(&cmd, "v") {
        let c = ObjData::parse_coords(ln, &a, 3)?;
        let ghost old_pos = dat.position@;
        dat.position.push(take3(c));
        assert(lits3_views(dat.position@) =~= lits3_views(old_pos).push(
            views(a@).take(3),
        ));
        Ok(())
    } else if eq_lit(&cmd, "vt") {
        let c = ObjData::parse_coords(ln, &a, 2)?;
        let ghost old_tex = dat.texture@;
        dat.texture.push(take2(c));
        assert(lits2_views(dat.texture@) =~= lits2_views(old_tex).push(views(a@).take(2)));
        Ok(())
    } else if eq_lit(&cmd, "vn") {
        let c = ObjData::parse_coords(ln, &a, 3)?;
        let ghost old_nml = dat.normal@;
        dat.normal.push(take3(c));
        assert(lits3_views(dat.normal@) =~= lits3_views(old_nml).push(views(a@).take(3)));
        Ok(())
    } else if eq_lit(&cmd, "f") {
        let poly = dat.parse_face(ln, &a)?;
        let mut g = match group.take() {
            Some(g) => g,
            None => Group::new(default_string()),
        };
        let ghost old_polys = g.polys@;
        g.polys.push(poly);
        assert(poly_views(g.polys@) =~= poly_views(old_polys).push(poly@));
        *group = Some(g);
        Ok(())
    } else if eq_lit(&cmd, "o") {
        let name = match name {
            Some(n) => if n.as_str().is_empty() {
                default_string()
            } else {
                n
            },
            None => default_string(),
        };
        close_into(object, group.take());
        let mut done = Object::new(name);
        std::mem::swap(object, &mut done);
        let ghost old_objs = dat.objects@;
        dat.objects.push(done);
        assert(object_views(dat.objects@) =~= object_views(old_objs).push(done@));
        Ok(())
    } else if eq_lit(&cmd, "g") {
        close_into(object, group.take());
        match name {
            Some(n) => {
                *group = Some(Group::new(n));
            },
            None => {
                *group = None;
            },
        }
        Ok(())
    } else if eq_lit(&cmd, "mtllib") {
        if a.len() == 0 {
            return Err(ObjError::MissingMTLName { line_number: ln });
        }
        let ghost old_libs = dat.material_libs@;
        dat.material_libs.push(Mtl::new(name_of(&a)));
        assert(mtl_views(dat.material_libs@) =~= mtl_views(old_libs).push(
            MtlView { filename: join_words(views(a@)), materials: Seq::empty() },
        ));
        Ok(())
    } else if eq_lit(&cmd, "usemtl") {
        let g = match group.take() {
            Some(g) => g,
            None => Group::new(default_string()),
        };
        let m = if a.len() == 0 {
            None
        } else {
            assert(a@[0]@ == views(a@)[0]);
            Some(ObjMaterial::Ref(string_of(a[0].as_slice())))
        };
        if g.material.is_some() {
            let next = Group { name: g.name.clone(), index: g.index + 1, material: m, polys: Vec::new() };
            assert(poly_views(next.polys@) =~= Seq::<Seq<IndexTuple>>::empty());
            let ghost old_groups = object.groups@;
            object.groups.push(g);
            assert(group_views(object.groups@) =~= group_views(old_groups).push(g@));
            *group = Some(next);
        } else {
            let mut g = g;
            g.material = m;
            *group = Some(g);
        }
        Ok(())
    } else if eq_lit(&cmd, "s") || eq_lit(&cmd, "l") {
        Ok(())
    } else if strict && cmd[0] != '#' {
        Err(ObjError::UnexpectedCommand { line_number: ln, command: string_of(cmd.as_slice()) })
    } else {
        Ok(())
    }
}

impl ObjData {
    /// Reads the `.obj` text `input` under the default configuration, which is strict.
    pub fn load_buf(input: &str) -> (r: Result<ObjData, ObjError>)
        ensures
            match obj_parse(input@, true) {
                Ok(d) => r matches Ok(x) && x@ == d,
                Err(e) => r matches Err(x) && x@ == e,
            },
    {
        ObjData::load_buf_with_config(input, LoadConfig { strict: true })
    }

    /// Reads the `.obj` text `input`.
    pub fn load_buf_with_config(input: &str, config: LoadConfig) -> (r: Result<ObjData, ObjError>)
        ensures
            match obj_parse(input@, config.strict) {
                Ok(d) => r matches Ok(x) && x@ == d,
                Err(e) => r matches Err(x) && x@ == e,
            },
    {
        let strict = config.strict;
        let cs = chars_of(input);
        let lines = split_lines(&cs);
        let ghost ls = views(lines@);
        let mut dat = ObjData::default();
        let mut object = Object::new(default_string());
        let mut group: Option<Group> = None;
        let mut i: usize = 0;
        assert(ls.take(0) =~= Seq::<Seq<char>>::empty());
        while i < lines.len()
            invariant
                i <= lines@.len(),
                ls == views(lines@),
                ls == lines_of(input@),
                strict == config.strict,
                group matches Some(g) ==> g.index <= i,
                obj_run(ls.take(i as int), strict) == Ok::<_, ObjErrorView>(
                    state_of(dat, object, group),
                ),
            decreases lines.len() - i,
        {
            proof {
                assert(ls.take(i + 1).drop_last() =~= ls.take(i as int));
                assert(ls.take(i + 1).last() == ls[i as int]);
                assert(lines@[i as int]@ == ls[i as int]);
            }
            let ghost st0 = state_of(dat, object, group);
            assert(obj_run(ls.take(i + 1), strict) == obj_step(
                st0,
                ls[i as int],
                i as nat,
                strict,
            ));
            match parse_line(&mut dat, &mut object, &mut group, &lines[i], i, strict) {
                Ok(_) => {},
                Err(e) => {
                    proof {
                        lemma_obj_run_err(ls, i + 1, strict);
                    }
                    return Err(e);
                },
            }
            i = i + 1;
        }
        assert(ls.take(i as int) =~= ls);
        let ghost st = state_of(dat, object, group);
        close_into(&mut object, group);
        let ghost old_objs = dat.objects@;
        dat.objects.push(object);
        assert(object_views(dat.objects@) =~= object_views(old_objs).push(object@));
        assert(dat@ == finish(st));
        Ok(dat)
    }
}

proof fn lemma_face_err(fs: Seq<Seq<char>>, k: int, np: nat, nt: nat, nn: nat, ln: nat)
    requires
        0 <= k <= fs.len(),
        face_spec(fs.take(k), np, nt, nn, ln) is Err,
    ensures
        face_spec(fs, np, nt, nn, ln) == face_spec(fs.take(k), np, nt, nn, ln),
    decreases fs.len(),
{
    if k == fs.len() {
        assert(fs.take(k) =~= fs);
    } else {
        assert(fs.drop_last().take(k) =~= fs.take(k));
        lemma_face_err(fs.drop_last(), k, np, nt, nn, ln);
    }
}

proof fn lemma_obj_run_err(ls: Seq<Seq<char>>, k: int, strict: bool)
    requires
        0 <= k <= ls.len(),
        obj_run(ls.take(k), strict) is Err,
    ensures
        obj_run(ls, strict) == obj_run(ls.take(k), strict),
    decreases ls.len(),
{
    if k == ls.len() {
        assert(ls.take(k) =~= ls);
    } else {
        assert(ls.drop_last().take(k) =~= ls.take(k));
        lemma_obj_run_err(ls.drop_last(), k, strict);
    }
}

} // verus!
