//! The `.mtl` material library format: its data model and its reader.

use std::sync::Arc;
use vstd::prelude::*;

use crate::text::{
    eq_lit, int_within, is_float_lit, join_words, parse_i32, split_lines,
    split_words, string_of, views, words_of, lines_of, FloatLit,
};

verus! {

/// `std::io::Error`, held opaque: the error met while reading a library's text, carried
/// through unread.
#[verifier::external_type_specification]
#[verifier::external_body]
pub struct ExIoError(std::io::Error);

/// The texts of three numbers.
pub open spec fn lits3(a: [FloatLit; 3]) -> Seq<Seq<char>> {
    seq![a@[0]@, a@[1]@, a@[2]@]
}

pub open spec fn opt_lits3(o: Option<[FloatLit; 3]>) -> Option<Seq<Seq<char>>> {
    match o {
        Some(a) => Some(lits3(a)),
        None => None,
    }
}

pub open spec fn opt_lit(o: Option<FloatLit>) -> Option<Seq<char>> {
    match o {
        Some(a) => Some(a@),
        None => None,
    }
}

pub open spec fn opt_str(o: Option<String>) -> Option<Seq<char>> {
    match o {
        Some(a) => Some(a@),
        None => None,
    }
}

/// A material as its fields' values: numbers and names as their text.
pub struct MaterialView {
    pub name: Seq<char>,
    pub ka: Option<Seq<Seq<char>>>,
    pub kd: Option<Seq<Seq<char>>>,
    pub ks: Option<Seq<Seq<char>>>,
    pub ke: Option<Seq<Seq<char>>>,
    pub km: Option<Seq<char>>,
    pub tf: Option<Seq<Seq<char>>>,
    pub ns: Option<Seq<char>>,
    pub ni: Option<Seq<char>>,
    pub tr: Option<Seq<char>>,
    pub d: Option<Seq<char>>,
    pub illum: Option<i32>,
    pub map_ka: Option<Seq<char>>,
    pub map_kd: Option<Seq<char>>,
    pub map_ks: Option<Seq<char>>,
    pub map_ke: Option<Seq<char>>,
    pub map_ns: Option<Seq<char>>,
    pub map_d: Option<Seq<char>>,
    pub map_bump: Option<Seq<char>>,
    pub map_refl: Option<Seq<char>>,
}

/// A material with the given name and no other property set.
pub open spec fn bare_material(name: Seq<char>) -> MaterialView {
    MaterialView {
        name,
        ka: None,
        kd: None,
        ks: None,
        ke: None,
        km: None,
        tf: None,
        ns: None,
        ni: None,
        tr: None,
        d: None,
        illum: None,
        map_ka: None,
        map_kd: None,
        map_ks: None,
        map_ke: None,
        map_ns: None,
        map_d: None,
        map_bump: None,
        map_refl: None,
    }
}

/// A single material of a `.mtl` library.
#[derive(Debug, Clone, PartialEq)]
pub struct Material {
    pub name: String,
    // Material color and illumination
    pub ka: Option<[FloatLit; 3]>,
    pub kd: Option<[FloatLit; 3]>,
    pub ks: Option<[FloatLit; 3]>,
    pub ke: Option<[FloatLit; 3]>,
    pub km: Option<FloatLit>,
    pub tf: Option<[FloatLit; 3]>,
    pub ns: Option<FloatLit>,
    pub ni: Option<FloatLit>,
    pub tr: Option<FloatLit>,
    pub d: Option<FloatLit>,
    pub illum: Option<i32>,
    // Texture and reflection maps
    pub map_ka: Option<String>,
    pub map_kd: Option<String>,
    pub map_ks: Option<String>,
    pub map_ke: Option<String>,
    pub map_ns: Option<String>,
    pub map_d: Option<String>,
    pub map_bump: Option<String>,
    pub map_refl: Option<String>,
}

impl View for Material {
    type V = MaterialView;

    open spec fn view(&self) -> MaterialView {
        MaterialView {
            name: self.name@,
            ka: opt_lits3(self.ka),
            kd: opt_lits3(self.kd),
            ks: opt_lits3(self.ks),
            ke: opt_lits3(self.ke),
            km: opt_lit(self.km),
            tf: opt_lits3(self.tf),
            ns: opt_lit(self.ns),
            ni: opt_lit(self.ni),
            tr: opt_lit(self.tr),
            d: opt_lit(self.d),
            illum: self.illum,
            map_ka: opt_str(self.map_ka),
            map_kd: opt_str(self.map_kd),
            map_ks: opt_str(self.map_ks),
            map_ke: opt_str(self.map_ke),
            map_ns: opt_str(self.map_ns),
            map_d: opt_str(self.map_d),
            map_bump: opt_str(self.map_bump),
            map_refl: opt_str(self.map_refl),
        }
    }
}

impl Material {
    /// A material with the given name and no other property set.
    pub fn new(name: String) -> (r: Material)
        ensures
            r@ == bare_material(name@),
    {
        Material {
            name,
            ka: None,
            kd: None,
            ks: None,
            ke: None,
            km: None,
            tf: None,
            ns: None,
            ni: None,
            tr: None,
            d: None,
            illum: None,
            map_ka: None,
            map_kd: None,
            map_ks: None,
            map_ke: None,
            map_ns: None,
            map_d: None,
            map_bump: None,
            map_refl: None,
        }
    }
}

/// The type of a value that an instruction lacks.
#[derive(Debug, Clone, Copy, PartialEq, Eq, Structural)]
pub enum MtlMissingType {
    I32,
    F32,
    String,
}

/// Errors reading a `.mtl` library.
#[derive(Debug)]
pub enum MtlError {
    Io(std::io::Error),
    /// The instruction is not one of the `.mtl` format.
    InvalidInstruction(String),
    /// A value could not be read.
    InvalidValue(String),
    /// `newmtl` without a name.
    MissingMaterialName,
    /// An instruction lacks its value.
    MissingValue(MtlMissingType),
}

pub enum MtlErrorView {
    Io,
    InvalidInstruction(Seq<char>),
    InvalidValue(Seq<char>),
    MissingMaterialName,
    MissingValue(MtlMissingType),
}

impl From<std::io::Error> for MtlError {
    fn from(e: std::io::Error) -> (r: MtlError)
        ensures
            r == MtlError::Io(e),
    {
        MtlError::Io(e)
    }
}

impl vstd::std_specs::convert::FromSpecImpl<std::io::Error> for MtlError {
    open spec fn obeys_from_spec() -> bool {
        true
    }

    open spec fn from_spec(e: std::io::Error) -> MtlError {
        MtlError::Io(e)
    }
}

impl View for MtlError {
    type V = MtlErrorView;

    open spec fn view(&self) -> MtlErrorView {
        match self {
            MtlError::Io(_) => MtlErrorView::Io,
            MtlError::InvalidInstruction(s) => MtlErrorView::InvalidInstruction(s@),
            MtlError::InvalidValue(s) => MtlErrorView::InvalidValue(s@),
            MtlError::MissingMaterialName => MtlErrorView::MissingMaterialName,
            MtlError::MissingValue(t) => MtlErrorView::MissingValue(*t),
        }
    }
}

/// The three numbers that an instruction such as `Ka` takes from the front of `a`.
pub open spec fn vec_arg(a: Seq<Seq<char>>) -> Result<Seq<Seq<char>>, MtlErrorView> {
    if a.len() < 3 {
        Err(MtlErrorView::InvalidValue(join_words(a)))
    } else if is_float_lit(a[0]) && is_float_lit(a[1]) && is_float_lit(a[2]) {
        Ok(a.take(3))
    } else {
        Err(MtlErrorView::InvalidValue(join_words(a.take(3))))
    }
}

/// The number that an instruction such as `Ns` takes from the front of `a`.
pub open spec fn f32_arg(a: Seq<Seq<char>>) -> Result<Seq<char>, MtlErrorView> {
    if a.len() == 0 {
        Err(MtlErrorView::MissingValue(MtlMissingType::F32))
    } else if is_float_lit(a[0]) {
        Ok(a[0])
    } else {
        Err(MtlErrorView::InvalidValue(a[0]))
    }
}

/// The integer that `illum` takes from the front of `a`.
pub open spec fn i32_arg(a: Seq<Seq<char>>) -> Result<i32, MtlErrorView> {
    if a.len() == 0 {
        Err(MtlErrorView::MissingValue(MtlMissingType::I32))
    } else {
        match int_within(a[0], i32::MIN as int, i32::MAX as int) {
            Some(v) => Ok(v as i32),
            None => Err(MtlErrorView::InvalidValue(a[0])),
        }
    }
}

/// The file name that a map instruction takes: all of `a`, joined by single spaces.
pub open spec fn string_arg(a: Seq<Seq<char>>) -> Result<Seq<char>, MtlErrorView> {
    if a.len() == 0 {
        Err(MtlErrorView::MissingValue(MtlMissingType::String))
    } else {
        Ok(join_words(a))
    }
}

/// The arguments of an instruction, read from left to right.
pub struct Parser {
    pub words: Vec<Vec<char>>,
    pub pos: usize,
}

impl Parser {
    /// The arguments not yet read.
    pub open spec fn rest(&self) -> Seq<Seq<char>> {
        views(self.words@).skip(self.pos as int)
    }

    pub open spec fn wf(&self) -> bool {
        self.pos <= self.words@.len()
    }

    /// The words of `line`, none read yet.
    pub fn new(line: &Vec<char>) -> (r: Parser)
        ensures
            r.wf(),
            r.rest() == words_of(line@),
    {
        let words = split_words(line);
        let r = Parser { words, pos: 0 };
        assert(r.rest() =~= words_of(line@));
        r
    }

    /// Reads the next word.
    pub fn next_word(&mut self) -> (r: Option<Vec<char>>)
        requires
            old(self).wf(),
        ensures
            final(self).wf(),
            old(self).rest().len() == 0 ==> r is None && final(self).rest() == old(self).rest(),
            old(self).rest().len() > 0 ==> r is Some && r->0@ == old(self).rest()[0]
                && final(self).rest() == old(self).rest().drop_first(),
    {
        if self.pos < self.words.len() {
            let w = self.words[self.pos].clone();
            self.pos = self.pos + 1;
            assert(final(self).rest() =~= old(self).rest().drop_first());
            Some(w)
        } else {
            None
        }
    }

    /// Reads three numbers.
    pub fn get_vec(&mut self) -> (r: Result<[FloatLit; 3], MtlError>)
        requires
            old(self).wf(),
        ensures
            final(self).wf(),
            final(self).rest() == old(self).rest().skip(
                if old(self).rest().len() < 3 {
                    old(self).rest().len() as int
                } else {
                    3
                },
            ),
            match r {
                Ok(v) => vec_arg(old(self).rest()) == Ok::<_, MtlErrorView>(lits3(v)),
                Err(e) => vec_arg(old(self).rest()) == Err::<Seq<Seq<char>>, _>(e@),
            },
    {
        let ghost a = old(self).rest();
        let n = self.words.len() - self.pos;
        if n < 3 {
            let rest = self.take_rest();
            assert(self.rest() =~= a.skip(a.len() as int));
            return Err(MtlError::InvalidValue(join_words_exec(&rest)));
        }
        let x = self.next_word().unwrap();
        let y = self.next_word().unwrap();
        let z = self.next_word().unwrap();
        assert(self.rest() =~= a.skip(3));
        let fx = FloatLit::from_chars(&x);
        let fy = FloatLit::from_chars(&y);
        let fz = FloatLit::from_chars(&z);
        match (fx, fy, fz) {
            (Some(fx), Some(fy), Some(fz)) => {
                let v = [fx, fy, fz];
                assert(lits3(v) =~= a.take(3));
                Ok(v)
            },
            _ => {
                let mut three: Vec<Vec<char>> = Vec::new();
                three.push(x);
                three.push(y);
                three.push(z);
                assert(views(three@) =~= a.take(3));
                Err(MtlError::InvalidValue(join_words_exec(&three)))
            },
        }
    }

    /// Reads an integer.
    pub fn get_i32(&mut self) -> (r: Result<i32, MtlError>)
        requires
            old(self).wf(),
        ensures
            final(self).wf(),
            old(self).rest().len() == 0 ==> final(self).rest() == old(self).rest(),
            old(self).rest().len() > 0 ==> final(self).rest() == old(self).rest().drop_first(),
            match r {
                Ok(v) => i32_arg(old(self).rest()) == Ok::<_, MtlErrorView>(v),
                Err(e) => i32_arg(old(self).rest()) == Err::<i32, _>(e@),
            },
    {
        match self.next_word() {
            Some(v) => match parse_i32(&v) {
                Some(x) => Ok(x),
                None => Err(MtlError::InvalidValue(string_of(v.as_slice()))),
            },
            None => Err(MtlError::MissingValue(MtlMissingType::I32)),
        }
    }

    /// Reads a number.
    pub fn get_f32(&mut self) -> (r: Result<FloatLit, MtlError>)
        requires
            old(self).wf(),
        ensures
            final(self).wf(),
            old(self).rest().len() == 0 ==> final(self).rest() == old(self).rest(),
            old(self).rest().len() > 0 ==> final(self).rest() == old(self).rest().drop_first(),
            match r {
                Ok(v) => f32_arg(old(self).rest()) == Ok::<_, MtlErrorView>(v@),
                Err(e) => f32_arg(old(self).rest()) == Err::<Seq<char>, _>(e@),
            },
    {
        match self.next_word() {
            Some(v) => match FloatLit::from_chars(&v) {
                Some(x) => Ok(x),
                None => Err(MtlError::InvalidValue(string_of(v.as_slice()))),
            },
            None => Err(MtlError::MissingValue(MtlMissingType::F32)),
        }
    }

    /// Reads all remaining words, joined by single spaces, so that a file name may hold
    /// spaces.
    pub fn into_string(self) -> (r: Result<String, MtlError>)
        requires
            self.wf(),
        ensures
            match r {
                Ok(v) => string_arg(self.rest()) == Ok::<_, MtlErrorView>(v@),
                Err(e) => string_arg(self.rest()) == Err::<Seq<char>, _>(e@),
            },
    {
        if self.pos == self.words.len() {
            return Err(MtlError::MissingValue(MtlMissingType::String));
        }
        let mut p = self;
        let rest = p.take_rest();
        Ok(join_words_exec(&rest))
    }

    /// Reads all remaining words.
    pub fn take_rest(&mut self) -> (r: Vec<Vec<char>>)
        requires
            old(self).wf(),
        ensures
            final(self).wf(),
            views(r@) == old(self).rest(),
            final(self).rest().len() == 0,
    {
        let ghost a = self.rest();
        let mut rest: Vec<Vec<char>> = Vec::new();
        while self.pos < self.words.len()
            invariant
                self.wf(),
                a == views(rest@) + self.rest(),
            decreases self.words.len() - self.pos,
        {
            let w = self.words[self.pos].clone();
            rest.push(w);
            self.pos = self.pos + 1;
            assert(a =~= views(rest@) + self.rest());
        }
        assert(views(rest@) =~= a);
        rest
    }
}

/// The first `n` words of `ws` joined by single spaces.
pub fn join_first(ws: &Vec<Vec<char>>, n: usize) -> (r: String)
    requires
        n <= ws@.len(),
    ensures
        r@ == join_words(views(ws@).take(n as int)),
{
    let mut out: Vec<char> = Vec::new();
    let mut i: usize = 0;
    while i < n
        invariant
            i <= n <= ws@.len(),
            out@ == join_words(views(ws@).take(i as int)),
        decreases n - i,
    {
        assert(views(ws@).take(i + 1).drop_last() =~= views(ws@).take(i as int));
        if i > 0 {
            out.push(' ');
        }
        let w = &ws[i];
        let mut j: usize = 0;
        let ghost base = out@;
        while j < w.len()
            invariant
                j <= w@.len(),
                out@ == base + w@.take(j as int),
            decreases w.len() - j,
        {
            out.push(w[j]);
            j = j + 1;
            assert(out@ =~= base + w@.take(j as int));
        }
        assert(w@.take(j as int) =~= w@);
        i = i + 1;
    }
    string_of(out.as_slice())
}

/// `ws` joined by single spaces.
pub fn join_words_exec(ws: &Vec<Vec<char>>) -> (r: String)
    ensures
        r@ == join_words(views(ws@)),
{
    assert(views(ws@).take(ws@.len() as int) =~= views(ws@));
    join_first(ws, ws.len())
}

pub open spec fn is_material_cmd(cmd: Seq<char>) -> bool {
    cmd == "Ka"@
    || cmd == "Kd"@
    || cmd == "Ks"@
    || cmd == "Ke"@
    || cmd == "Tf"@
    || cmd == "Ns"@
    || cmd == "Ni"@
    || cmd == "Km"@
    || cmd == "d"@
    || cmd == "Tr"@
    || cmd == "illum"@
    || cmd == "map_Ka"@
    || cmd == "map_Kd"@
    || cmd == "map_Ks"@
    || cmd == "map_d"@
    || cmd == "map_refl"@
    || cmd == "refl"@
    || cmd == "map_bump"@
    || cmd == "map_Bump"@
    || cmd == "bump"@
}

/// What instruction `cmd` with arguments `a` makes of material `m`.
pub open spec fn apply(m: MaterialView, cmd: Seq<char>, a: Seq<Seq<char>>) -> Result<
    MaterialView,
    MtlErrorView,
> {
    if cmd == "Ka"@ {
        match vec_arg(a) {
            Ok(v) => Ok(MaterialView { ka: Some(v), ..m }),
            Err(e) => Err(e),
        }
    } else if cmd == "Kd"@ {
        match vec_arg(a) {
            Ok(v) => Ok(MaterialView { kd: Some(v), ..m }),
            Err(e) => Err(e),
        }
    } else if cmd == "Ks"@ {
        match vec_arg(a) {
            Ok(v) => Ok(MaterialView { ks: Some(v), ..m }),
            Err(e) => Err(e),
        }
    } else if cmd == "Ke"@ {
        match vec_arg(a) {
            Ok(v) => Ok(MaterialView { ke: Some(v), ..m }),
            Err(e) => Err(e),
        }
    } else if cmd == "Tf"@ {
        match vec_arg(a) {
            Ok(v) => Ok(MaterialView { tf: Some(v), ..m }),
            Err(e) => Err(e),
        }
    } else if cmd == "Ns"@ {
        match f32_arg(a) {
            Ok(v) => Ok(MaterialView { ns: Some(v), ..m }),
            Err(e) => Err(e),
        }
    } else if cmd == "Ni"@ {
        match f32_arg(a) {
            Ok(v) => Ok(MaterialView { ni: Some(v), ..m }),
            Err(e) => Err(e),
        }
    } else if cmd == "Km"@ {
        match f32_arg(a) {
            Ok(v) => Ok(MaterialView { km: Some(v), ..m }),
            Err(e) => Err(e),
        }
    } else if cmd == "d"@ {
        match f32_arg(a) {
            Ok(v) => Ok(MaterialView { d: Some(v), ..m }),
            Err(e) => Err(e),
        }
    } else if cmd == "Tr"@ {
        match f32_arg(a) {
            Ok(v) => Ok(MaterialView { tr: Some(v), ..m }),
            Err(e) => Err(e),
        }
    } else if cmd == "illum"@ {
        match i32_arg(a) {
            Ok(v) => Ok(MaterialView { illum: Some(v), ..m }),
            Err(e) => Err(e),
        }
    } else if cmd == "map_Ka"@ {
        match string_arg(a) {
            Ok(v) => Ok(MaterialView { map_ka: Some(v), ..m }),
            Err(e) => Err(e),
        }
    } else if cmd == "map_Kd"@ {
        match string_arg(a) {
            Ok(v) => Ok(MaterialView { map_kd: Some(v), ..m }),
            Err(e) => Err(e),
        }
    } else if cmd == "map_Ks"@ {
        match string_arg(a) {
            Ok(v) => Ok(MaterialView { map_ks: Some(v), ..m }),
            Err(e) => Err(e),
        }
    } else if cmd == "map_d"@ {
        match string_arg(a) {
            Ok(v) => Ok(MaterialView { map_d: Some(v), ..m }),
            Err(e) => Err(e),
        }
    } else if cmd == "map_refl"@ {
        match string_arg(a) {
            Ok(v) => Ok(MaterialView { map_refl: Some(v), ..m }),
            Err(e) => Err(e),
        }
    } else if cmd == "refl"@ {
        match string_arg(a) {
            Ok(v) => Ok(MaterialView { map_refl: Some(v), ..m }),
            Err(e) => Err(e),
        }
    } else if cmd == "map_bump"@ {
        match string_arg(a) {
            Ok(v) => Ok(MaterialView { map_bump: Some(v), ..m }),
            Err(e) => Err(e),
        }
    } else if cmd == "map_Bump"@ {
        match string_arg(a) {
            Ok(v) => Ok(MaterialView { map_bump: Some(v), ..m }),
            Err(e) => Err(e),
        }
    } else if cmd == "bump"@ {
        match string_arg(a) {
            Ok(v) => Ok(MaterialView { map_bump: Some(v), ..m }),
            Err(e) => Err(e),
        }
    } else {
        Ok(m)
    }
}

/// Applies instruction `cmd`, whose arguments `p` holds, to material `m`.
fn apply_instruction(m: &mut Material, cmd: &Vec<char>, p: Parser) -> (r: Result<(), MtlError>)
    requires
        p.wf(),
    ensures
        match r {
            Ok(_) => apply(old(m)@, cmd@, p.rest()) == Ok::<_, MtlErrorView>(final(m)@),
            Err(e) => apply(old(m)@, cmd@, p.rest()) == Err::<MaterialView, _>(e@),
        },
{
    let mut p = p;
    if eq_lit(cmd, "Ka") {
        m.ka = Some(p.get_vec()?);
    } else if eq_lit(cmd, "Kd") {
        m.kd = Some(p.get_vec()?);
    } else if eq_lit(cmd, "Ks") {
        m.ks = Some(p.get_vec()?);
    } else if eq_lit(cmd, "Ke") {
        m.ke = Some(p.get_vec()?);
    } else if eq_lit(cmd, "Tf") {
        m.tf = Some(p.get_vec()?);
    } else if eq_lit(cmd, "Ns") {
        m.ns = Some(p.get_f32()?);
    } else if eq_lit(cmd, "Ni") {
        m.ni = Some(p.get_f32()?);
    } else if eq_lit(cmd, "Km") {
        m.km = Some(p.get_f32()?);
    } else if eq_lit(cmd, "d") {
        m.d = Some(p.get_f32()?);
    } else if eq_lit(cmd, "Tr") {
        m.tr = Some(p.get_f32()?);
    } else if eq_lit(cmd, "illum") {
        m.illum = Some(p.get_i32()?);
    } else if eq_lit(cmd, "map_Ka") {
        m.map_ka = Some(p.into_string()?);
    } else if eq_lit(cmd, "map_Kd") {
        m.map_kd = Some(p.into_string()?);
    } else if eq_lit(cmd, "map_Ks") {
        m.map_ks = Some(p.into_string()?);
    } else if eq_lit(cmd, "map_d") {
        m.map_d = Some(p.into_string()?);
    } else if eq_lit(cmd, "map_refl") {
        m.map_refl = Some(p.into_string()?);
    } else if eq_lit(cmd, "refl") {
        m.map_refl = Some(p.into_string()?);
    } else if eq_lit(cmd, "map_bump") {
        m.map_bump = Some(p.into_string()?);
    } else if eq_lit(cmd, "map_Bump") {
        m.map_bump = Some(p.into_string()?);
    } else if eq_lit(cmd, "bump") {
        m.map_bump = Some(p.into_string()?);
    }
    Ok(())
}

fn material_cmd(cmd: &Vec<char>) -> (r: bool)
    ensures
        r == is_material_cmd(cmd@),
{
    eq_lit(cmd, "Ka")
        || eq_lit(cmd, "Kd")
        || eq_lit(cmd, "Ks")
        || eq_lit(cmd, "Ke")
        || eq_lit(cmd, "Tf")
        || eq_lit(cmd, "Ns")
        || eq_lit(cmd, "Ni")
        || eq_lit(cmd, "Km")
        || eq_lit(cmd, "d")
        || eq_lit(cmd, "Tr")
        || eq_lit(cmd, "illum")
        || eq_lit(cmd, "map_Ka")
        || eq_lit(cmd, "map_Kd")
        || eq_lit(cmd, "map_Ks")
        || eq_lit(cmd, "map_d")
        || eq_lit(cmd, "map_refl")
        || eq_lit(cmd, "refl")
        || eq_lit(cmd, "map_bump")
        || eq_lit(cmd, "map_Bump")
        || eq_lit(cmd, "bump")
}

/// The parser's state between two lines: the materials completed so far and the one being read.
pub struct MtlState {
    pub done: Seq<MaterialView>,
    pub cur: Option<MaterialView>,
}

/// The completed materials, the one being read added at the end.
pub open spec fn flush(st: MtlState) -> Seq<MaterialView> {
    match st.cur {
        Some(m) => st.done.push(m),
        None => st.done,
    }
}

/// A word that starts a comment.
pub open spec fn is_comment(w: Seq<char>) -> bool {
    w.len() > 0 && w[0] == '#'
}

/// What a line whose words are `w` makes of the state.
pub open spec fn mtl_step(st: MtlState, w: Seq<Seq<char>>) -> Result<MtlState, MtlErrorView> {
    if w.len() == 0 {
        Ok(st)
    } else if w[0] == "newmtl"@ {
        if w.len() < 2 {
            Err(MtlErrorView::MissingMaterialName)
        } else {
            Ok(MtlState { done: flush(st), cur: Some(bare_material(w[1])) })
        }
    } else if is_material_cmd(w[0]) {
        match st.cur {
            None => Ok(st),
            Some(m) => match apply(m, w[0], w.drop_first()) {
                Ok(m2) => Ok(MtlState { done: st.done, cur: Some(m2) }),
                Err(e) => Err(e),
            },
        }
    } else if is_comment(w[0]) {
        Ok(st)
    } else {
        Err(MtlErrorView::InvalidInstruction(w[0]))
    }
}

/// The state after the lines `ls`, or the first error.
pub open spec fn mtl_run(ls: Seq<Seq<char>>) -> Result<MtlState, MtlErrorView>
    decreases ls.len(),
{
    if ls.len() == 0 {
        Ok(MtlState { done: Seq::empty(), cur: None })
    } else {
        match mtl_run(ls.drop_last()) {
            Ok(st) => mtl_step(st, words_of(ls.last())),
            Err(e) => Err(e),
        }
    }
}

/// The materials that the `.mtl` text `text` defines, in order, or the first error.
pub open spec fn mtl_parse(text: Seq<char>) -> Result<Seq<MaterialView>, MtlErrorView> {
    match mtl_run(lines_of(text)) {
        Ok(st) => Ok(flush(st)),
        Err(e) => Err(e),
    }
}

proof fn lemma_mtl_run_err(ls: Seq<Seq<char>>, k: int)
    requires
        0 <= k <= ls.len(),
        mtl_run(ls.take(k)) is Err,
    ensures
        mtl_run(ls) == mtl_run(ls.take(k)),
    decreases ls.len(),
{
    if k == ls.len() {
        assert(ls.take(k) =~= ls);
    } else {
        assert(ls.drop_last().take(k) =~= ls.take(k));
        lemma_mtl_run_err(ls.drop_last(), k);
    }
}

pub open spec fn material_views(ms: Seq<Arc<Material>>) -> Seq<MaterialView> {
    Seq::new(ms.len(), |i: int| ms[i]@)
}

pub open spec fn opt_material(o: Option<Material>) -> Option<MaterialView> {
    match o {
        Some(m) => Some(m@),
        None => None,
    }
}

pub struct MtlView {
    pub filename: Seq<char>,
    pub materials: Seq<MaterialView>,
}

/// A material library: the file name that `mtllib` gives, and the materials read from it.
#[derive(Debug, Clone, PartialEq)]
pub struct Mtl {
    /// Name of the `.mtl` file.
    pub filename: String,
    /// The materials, shared with the groups that use them once resolved.
    pub materials: Vec<Arc<Material>>,
}

impl View for Mtl {
    type V = MtlView;

    open spec fn view(&self) -> MtlView {
        MtlView { filename: self.filename@, materials: material_views(self.materials@) }
    }
}

impl Mtl {
    /// An empty library with the given file name.
    pub fn new(filename: String) -> (r: Mtl)
        ensures
            r@ == (MtlView { filename: filename@, materials: Seq::empty() }),
    {
        let r = Mtl { filename, materials: Vec::new() };
        assert(r@.materials =~= Seq::<MaterialView>::empty());
        r
    }

    /// Reads the library from the `.mtl` text `input`, in place of what it held. On an error
    /// it is left without materials.
    pub fn reload(&mut self, input: &str) -> (r: Result<(), MtlError>)
        ensures
            final(self).filename == old(self).filename,
            match mtl_parse(input@) {
                Ok(ms) => r is Ok && final(self)@.materials == ms,
                Err(e) => r matches Err(x) && x@ == e && final(self)@.materials.len() == 0,
            },
    {
        self.materials = Vec::new();
        let cs = crate::text::chars_of(input);
        let lines = split_lines(&cs);
        let ghost ls = views(lines@);
        let mut done: Vec<Arc<Material>> = Vec::new();
        let mut cur: Option<Material> = None;
        let mut i: usize = 0;
        assert(ls.take(0) =~= Seq::<Seq<char>>::empty());
        assert(material_views(done@) =~= Seq::<MaterialView>::empty());
        while i < lines.len()
            invariant
                i <= lines@.len(),
                ls == views(lines@),
                ls == lines_of(input@),
                self.materials@.len() == 0,
                self.filename == old(self).filename,
                mtl_run(ls.take(i as int)) == Ok::<_, MtlErrorView>(
                    MtlState { done: material_views(done@), cur: opt_material(cur) },
                ),
            decreases lines.len() - i,
        {
            let ghost st = MtlState { done: material_views(done@), cur: opt_material(cur) };
            let ghost w = words_of(ls[i as int]);
            proof {
                assert(ls.take(i + 1).drop_last() =~= ls.take(i as int));
                assert(ls.take(i + 1).last() == ls[i as int]);
                crate::text::lemma_words_nonempty(ls[i as int]);
            }
            let mut p = Parser::new(&lines[i]);
            match p.next_word() {
                None => {},
                Some(cmd) => {
                    if eq_lit(&cmd, "newmtl") {
                        match p.next_word() {
                            None => {
                                proof {
                                    lemma_mtl_run_err(ls, i + 1);
                                }
                                return Err(MtlError::MissingMaterialName);
                            },
                            Some(name) => {
                                match cur {
                                    Some(m) => {
                                        done.push(Arc::new(m));
                                    },
                                    None => {},
                                }
                                cur = Some(Material::new(string_of(name.as_slice())));
                                assert(material_views(done@) =~= flush(st));
                            },
                        }
                    } else if material_cmd(&cmd) {
                        match cur {
                            Some(m) => {
                                let mut m = m;
                                match apply_instruction(&mut m, &cmd, p) {
                                    Ok(_) => {},
                                    Err(e) => {
                                        proof {
                                            lemma_mtl_run_err(ls, i + 1);
                                        }
                                        return Err(e);
                                    },
                                }
                                cur = Some(m);
                            },
                            None => {},
                        }
                    } else if cmd[0] == '#' {
                    } else {
                        proof {
                            lemma_mtl_run_err(ls, i + 1);
                        }
                        return Err(MtlError::InvalidInstruction(string_of(cmd.as_slice())));
                    }
                },
            }
            i = i + 1;
        }
        assert(ls.take(i as int) =~= ls);
        let ghost st = MtlState { done: material_views(done@), cur: opt_material(cur) };
        match cur {
            Some(m) => {
                done.push(Arc::new(m));
            },
            None => {},
        }
        self.materials = done;
        assert(self@.materials =~= flush(st));
        Ok(())
    }
}

} // verus!
