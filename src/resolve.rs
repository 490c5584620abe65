//! Binding the materials that groups name to the materials of the loaded libraries.

use std::sync::Arc;
use vstd::prelude::*;

use crate::mtl::{mtl_parse, MtlError, MtlErrorView, material_views, Material, MaterialView, Mtl, MtlView};
use crate::obj::{ material_name, Group, GroupView, ObjData, ObjDataView,
    ObjMaterial, ObjMaterialView, Object, ObjectView,
};

verus! {

/// The materials of the libraries `libs`, library by library, each in its own order.
pub open spec fn all_materials(libs: Seq<MtlView>) -> Seq<MaterialView>
    decreases libs.len(),
{
    if libs.len() == 0 {
        Seq::empty()
    } else {
        all_materials(libs.drop_last()) + libs.last().materials
    }
}

/// The first material of `ms` named `n`.
pub open spec fn find_first(ms: Seq<MaterialView>, n: Seq<char>) -> Option<MaterialView>
    decreases ms.len(),
{
    if ms.len() == 0 {
        None
    } else {
        match find_first(ms.drop_last(), n) {
            Some(m) => Some(m),
            None => if ms.last().name == n {
                Some(ms.last())
            } else {
                None
            },
        }
    }
}

/// Group `g` with its material replaced by the first of `ms` of the same name, where there is
/// one.
pub open spec fn resolved_group(g: GroupView, ms: Seq<MaterialView>) -> GroupView {
    match g.material {
        Some(m) => match find_first(ms, material_name(m)) {
            Some(mv) => GroupView { material: Some(ObjMaterialView::Mtl(mv)), ..g },
            None => g,
        },
        None => g,
    }
}

pub open spec fn resolved_object(o: ObjectView, ms: Seq<MaterialView>) -> ObjectView {
    ObjectView {
        name: o.name,
        groups: Seq::new(o.groups.len(), |j: int| resolved_group(o.groups[j], ms)),
    }
}

pub open spec fn resolved_objects(os: Seq<ObjectView>, ms: Seq<MaterialView>) -> Seq<ObjectView> {
    Seq::new(os.len(), |i: int| resolved_object(os[i], ms))
}

/// Relies on `Arc::clone`: a second handle to the same material.
#[verifier::external_body]
fn share(m: &Arc<Material>) -> (r: Arc<Material>)
    ensures
        r == *m,
{
    Arc::clone(m)
}

/// The first material of `table` named `name`.
fn find_material(table: &Vec<Arc<Material>>, name: &String) -> (r: Option<Arc<Material>>)
    ensures
        match find_first(material_views(table@), name@) {
            Some(mv) => r matches Some(a) && a@ == mv,
            None => r is None,
        },
{
    let ghost ms = material_views(table@);
    let mut i: usize = 0;
    while i < table.len()
        invariant
            i <= table@.len(),
            ms == material_views(table@),
            find_first(ms.take(i as int), name@) is None,
        decreases table.len() - i,
    {
        assert(ms.take(i + 1).drop_last() =~= ms.take(i as int));
        assert(ms.take(i + 1).last() == table@[i as int]@);
        if table[i].name == *name {
            proof {
                lemma_find_first_prefix(ms, i + 1, name@);
            }
            return Some(share(&table[i]));
        }
        i = i + 1;
    }
    assert(ms.take(i as int) =~= ms);
    None
}

proof fn lemma_find_first_prefix(ms: Seq<MaterialView>, k: int, n: Seq<char>)
    requires
        0 <= k <= ms.len(),
        find_first(ms.take(k), n) is Some,
    ensures
        find_first(ms, n) == find_first(ms.take(k), n),
    decreases ms.len(),
{
    if k == ms.len() {
        assert(ms.take(k) =~= ms);
    } else {
        assert(ms.drop_last().take(k) =~= ms.take(k));
        lemma_find_first_prefix(ms.drop_last(), k, n);
    }
}

fn resolve_group(g: &mut Group, table: &Vec<Arc<Material>>)
    ensures
        final(g)@ == resolved_group(old(g)@, material_views(table@)),
{
    let name: Option<String> = match &g.material {
        Some(m) => Some(String::from_str(m.name())),
        None => None,
    };
    match name {
        Some(n) => match find_material(table, &n) {
            Some(a) => {
                g.material = Some(ObjMaterial::Mtl(a));
            },
            None => {},
        },
        None => {},
    }
}

fn resolve_object(o: &mut Object, table: &Vec<Arc<Material>>)
    ensures
        final(o)@ == resolved_object(old(o)@, material_views(table@)),
{
    let ghost ms = material_views(table@);
    let ghost gs = old(o)@.groups;
    let mut j: usize = 0;
    while j < o.groups.len()
        invariant
            j <= o.groups@.len(),
            o.groups@.len() == gs.len(),
            o@.name == old(o)@.name,
            gs == old(o)@.groups,
            ms == material_views(table@),
            forall|k: int| 0 <= k < j ==> #[trigger] o.groups@[k]@ == resolved_group(gs[k], ms),
            forall|k: int| j <= k < gs.len() ==> #[trigger] o.groups@[k]@ == gs[k],
        decreases o.groups.len() - j,
    {
        resolve_group(&mut o.groups[j], table);
        j = j + 1;
    }
    assert(o@.groups =~= resolved_object(old(o)@, ms).groups);
}

fn extend_table(table: &mut Vec<Arc<Material>>, ms: &Vec<Arc<Material>>)
    ensures
        material_views(final(table)@) == material_views(old(table)@) + material_views(ms@),
{
    let mut k: usize = 0;
    while k < ms.len()
        invariant
            k <= ms@.len(),
            table@ == old(table)@ + ms@.take(k as int),
        decreases ms.len() - k,
    {
        table.push(share(&ms[k]));
        k = k + 1;
        assert(table@ =~= old(table)@ + ms@.take(k as int));
    }
    assert(ms@.take(k as int) =~= ms@);
    assert(material_views(table@) =~= material_views(old(table)@) + material_views(ms@));
}

impl ObjData {
    /// Binds each group's material to the first material of that name in the libraries, taken
    /// in order; a name that none of them defines stays as it is.
    pub fn resolve_materials(&mut self)
        ensures
            final(self)@ == (ObjDataView {
                objects: resolved_objects(
                    old(self)@.objects,
                    all_materials(old(self)@.material_libs),
                ),
                ..old(self)@
            }),
    {
        let ghost libs = self@.material_libs;
        let mut table: Vec<Arc<Material>> = Vec::new();
        let mut i: usize = 0;
        assert(libs.take(0) =~= Seq::<MtlView>::empty());
        assert(material_views(table@) =~= Seq::<MaterialView>::empty());
        while i < self.material_libs.len()
            invariant
                i <= self.material_libs@.len(),
                libs == self@.material_libs,
                material_views(table@) == all_materials(libs.take(i as int)),
            decreases self.material_libs.len() - i,
        {
            assert(libs.take(i + 1).drop_last() =~= libs.take(i as int));
            let lib = &self.material_libs[i];
            extend_table(&mut table, &lib.materials);

            i = i + 1;
        }
        assert(libs.take(i as int) =~= libs);
        self.bind_materials(&table);
    }

    /// Binds each group's material to the first material of that name in `table`; a name
    /// that `table` does not hold stays as it is.
    fn bind_materials(&mut self, table: &Vec<Arc<Material>>)
        ensures
            final(self)@ == (ObjDataView {
                objects: resolved_objects(old(self)@.objects, material_views(table@)),
                ..old(self)@
            }),
    {
        let ghost ms = material_views(table@);
        let ghost os = old(self)@.objects;
        let mut j: usize = 0;
        while j < self.objects.len()
            invariant
                j <= self.objects@.len(),
                self.objects@.len() == os.len(),
                ms == material_views(table@),
                os == old(self)@.objects,
                self.position == old(self).position,
                self.texture == old(self).texture,
                self.normal == old(self).normal,
                self.material_libs == old(self).material_libs,
                forall|k: int| 0 <= k < j ==> #[trigger] self.objects@[k]@ == resolved_object(os[k], ms),
                forall|k: int| j <= k < os.len() ==> #[trigger] self.objects@[k]@ == os[k],
            decreases self.objects.len() - j,
        {
            resolve_object(&mut self.objects[j], &table);
            j = j + 1;
        }
        assert(self@.objects =~= resolved_objects(os, ms));
    }
}

/// What a library's text gives: its materials, or why it could not be loaded.
pub open spec fn loaded(c: Option<Seq<char>>) -> Result<Seq<MaterialView>, MtlErrorView> {
    match c {
        Some(t) => mtl_parse(t),
        None => Err(MtlErrorView::Io),
    }
}

/// Library `l` once loaded from `c`: unchanged where its text could not be had, without
/// materials where the text failed to read.
pub open spec fn reloaded(l: MtlView, c: Option<Seq<char>>) -> MtlView {
    match c {
        None => l,
        Some(t) => MtlView {
            filename: l.filename,
            materials: match mtl_parse(t) {
                Ok(ms) => ms,
                Err(_) => Seq::empty(),
            },
        },
    }
}

pub open spec fn content_view(c: Result<String, std::io::Error>) -> Option<Seq<char>> {
    match c {
        Ok(s) => Some(s@),
        Err(_) => None,
    }
}

pub open spec fn content_views(cs: Seq<Result<String, std::io::Error>>) -> Seq<Option<Seq<char>>> {
    Seq::new(cs.len(), |i: int| content_view(cs[i]))
}

/// The libraries `libs` once loaded from the texts `cs`, one for each.
pub open spec fn reloaded_all(libs: Seq<MtlView>, cs: Seq<Option<Seq<char>>>) -> Seq<MtlView> {
    Seq::new(libs.len(), |i: int| reloaded(libs[i], cs[i]))
}

/// The materials of the libraries of `cs` that load, library by library.
pub open spec fn loaded_materials(cs: Seq<Option<Seq<char>>>) -> Seq<MaterialView>
    decreases cs.len(),
{
    if cs.len() == 0 {
        Seq::empty()
    } else {
        loaded_materials(cs.drop_last()) + match loaded(cs.last()) {
            Ok(ms) => ms,
            Err(_) => Seq::empty(),
        }
    }
}

/// The file name and error of each library that fails to load, in order.
pub open spec fn load_failures(libs: Seq<MtlView>, cs: Seq<Option<Seq<char>>>) -> Seq<
    (Seq<char>, MtlErrorView),
>
    decreases libs.len(),
{
    if libs.len() == 0 || cs.len() < libs.len() {
        Seq::empty()
    } else {
        let n = libs.len() - 1;
        let prev = load_failures(libs.drop_last(), cs.take(n));
        match loaded(cs[n]) {
            Ok(_) => prev,
            Err(e) => prev.push((libs[n].filename, e)),
        }
    }
}

/// The contents once the libraries are loaded from `cs` and the groups' materials bound to
/// those of the libraries that loaded.
pub open spec fn with_libraries(d: ObjDataView, cs: Seq<Option<Seq<char>>>) -> ObjDataView {
    ObjDataView {
        material_libs: reloaded_all(d.material_libs, cs),
        objects: resolved_objects(d.objects, loaded_materials(cs)),
        ..d
    }
}

pub open spec fn failure_views(v: Seq<(String, MtlError)>) -> Seq<(Seq<char>, MtlErrorView)> {
    Seq::new(v.len(), |i: int| (v[i].0@, v[i].1@))
}

impl crate::obj::MtlLibsLoadError {
    pub open spec fn failures(&self) -> Seq<(Seq<char>, MtlErrorView)> {
        failure_views(self.0@)
    }
}

/// `c` is a result that `resolve` can give for the directory `dir` and the file name `name`.
pub open spec fn fetched<F: Fn(&str, &str) -> Result<String, std::io::Error>>(
    resolve: F,
    dir: Seq<char>,
    name: Seq<char>,
    c: Result<String, std::io::Error>,
) -> bool {
    exists|a: &str, b: &str| a@ == dir && b@ == name && resolve.ensures((a, b), c)
}

/// `.obj` contents with the directory that the libraries they name are looked up in.
#[derive(Clone, Debug)]
pub struct Obj {
    pub data: ObjData,
    /// The directory of the `.obj` file; empty where the text was not read from a file.
    pub path: String,
}

impl Mtl {
    /// Loads the library from the text that `resolve` gives for the directory `obj_dir` and
    /// the library's file name. Where `resolve` fails the library is left as it was.
    pub fn reload_with<F: Fn(&str, &str) -> Result<String, std::io::Error>>(
        &mut self,
        obj_dir: &str,
        resolve: F,
    ) -> (r: Result<(), MtlError>)
        requires
            forall|a: &str, b: &str| resolve.requires((a, b)),
        ensures
            exists|c: Result<String, std::io::Error>|
                {
                    &&& fetched(resolve, obj_dir@, old(self).filename@, c)
                    &&& match c {
                        Ok(t) => {
                            &&& final(self).filename == old(self).filename
                            &&& final(self)@ == reloaded(old(self)@, Some(t@))
                            &&& match mtl_parse(t@) {
                                Ok(_) => r is Ok,
                                Err(e) => r matches Err(x) && x@ == e,
                            }
                        },
                        Err(e) => *final(self) == *old(self) && r == Err::<(), _>(MtlError::Io(e)),
                    }
                },
    {
        let b = self.filename.as_str();
        let c = resolve(obj_dir, b);
        assert(fetched(resolve, obj_dir@, old(self).filename@, c));
        self.load_from(c)
    }

    /// Loads the library from `c`: its text, or the error met while reading it. On an I/O
    /// error the library is left as it was; on an error in the text, without materials.
    pub fn load_from(&mut self, c: Result<String, std::io::Error>) -> (r: Result<(), MtlError>)
        ensures
            final(self)@ == reloaded(old(self)@, content_view(c)),
            match c {
                Ok(t) => {
                    &&& final(self).filename == old(self).filename
                    &&& match mtl_parse(t@) {
                        Ok(_) => r is Ok,
                        Err(e) => r matches Err(x) && x@ == e,
                    }
                },
                Err(e) => *final(self) == *old(self) && r == Err::<(), _>(MtlError::Io(e)),
            },
            match loaded(content_view(c)) {
                Ok(ms) => r is Ok && final(self)@.materials == ms,
                Err(e) => r matches Err(x) && x@ == e,
            },
    {
        match c {
            Ok(text) => {
                let r = self.reload(text.as_str());
                assert(final(self)@.materials =~= reloaded(old(self)@, content_view(c)).materials);
                r
            },
            Err(e) => Err(MtlError::Io(e)),
        }
    }
}

impl Obj {
    /// Loads each library from its entry of `contents`, in order, then binds the groups'
    /// materials to those of the libraries that loaded: a name that several of them define
    /// takes the first one's material. A library whose text could not be had is left as it
    /// was, one whose text fails to read is left without materials; either is listed in the
    /// error, and the others are loaded and bound all the same.
    pub fn load_mtls_from(&mut self, contents: Vec<Result<String, std::io::Error>>) -> (r: Result<
        (),
        crate::obj::MtlLibsLoadError,
    >)
        requires
            contents@.len() == old(self).data@.material_libs.len(),
        ensures
            final(self).path == old(self).path,
            final(self).data@ == with_libraries(old(self).data@, content_views(contents@)),
            match r {
                Ok(_) => load_failures(old(self).data@.material_libs, content_views(contents@)).len()
                    == 0,
                Err(e) => e.failures() == load_failures(
                    old(self).data@.material_libs,
                    content_views(contents@),
                ) && e.failures().len() > 0,
            },
    {
        let ghost cs = content_views(contents@);
        let ghost libs = old(self).data@.material_libs;
        let mut contents = contents;
        let mut errs: Vec<(String, MtlError)> = Vec::new();
        let mut table: Vec<Arc<Material>> = Vec::new();
        let mut i: usize = 0;
        let n = self.data.material_libs.len();
        assert(cs.take(0) =~= Seq::<Option<Seq<char>>>::empty());
        assert(material_views(table@) =~= Seq::<MaterialView>::empty());
        while i < n
            invariant
                n == libs.len(),
                i <= n,
                cs.len() == n,
                content_views(contents@) == cs.skip(i as int),
                contents@.len() == n - i,
                self.data.material_libs@.len() == n,
                self.path == old(self).path,
                self.data.position == old(self).data.position,
                self.data.texture == old(self).data.texture,
                self.data.normal == old(self).data.normal,
                self.data.objects == old(self).data.objects,
                forall|k: int| 0 <= k < i ==> #[trigger] self.data.material_libs@[k]@ == reloaded(libs[k], cs[k]),
                forall|k: int| i <= k < n ==> #[trigger] self.data.material_libs@[k]@ == libs[k],
                failure_views(errs@) == load_failures(libs.take(i as int), cs.take(i as int)),
                material_views(table@) == loaded_materials(cs.take(i as int)),
            decreases n - i,
        {
            let ghost before = contents@;
            let c = contents.remove(0);
            assert(content_view(c) == cs[i as int]) by {
                assert(content_views(before)[0] == cs.skip(i as int)[0]);
            }
            assert forall|x: int| 0 <= x < contents@.len() implies #[trigger] content_views(
                contents@,
            )[x] == cs.skip(i + 1)[x] by {
                assert(contents@[x] == before[x + 1]);
                assert(content_views(before)[x + 1] == cs.skip(i as int)[x + 1]);
            }
            assert(content_views(contents@) =~= cs.skip(i + 1));
            let r = self.data.material_libs[i].load_from(c);
            proof {
                let lt = libs.take(i + 1);
                let ct = cs.take(i + 1);
                assert(lt.drop_last() =~= libs.take(i as int));
                assert(ct.take(i as int) =~= cs.take(i as int));
                assert(ct.drop_last() =~= cs.take(i as int));
                assert(ct.last() == cs[i as int]);
            }
            match r {
                Ok(_) => {
                    extend_table(&mut table, &self.data.material_libs[i].materials);
                },
                Err(e) => {
                    let name = self.data.material_libs[i].filename.clone();
                    let ghost old_errs = errs@;
                    errs.push((name, e));
                    assert(failure_views(errs@) =~= failure_views(old_errs).push(
                        (libs[i as int].filename, e@),
                    ));
                    assert(material_views(table@) + Seq::<MaterialView>::empty() =~= material_views(
                        table@,
                    ));
                },
            }
            i = i + 1;
        }
        assert(libs.take(n as int) =~= libs);
        assert(cs.take(n as int) =~= cs);
        assert(self.data@.material_libs =~= reloaded_all(libs, cs));
        self.data.bind_materials(&table);
        if errs.len() == 0 {
            Ok(())
        } else {
            Err(crate::obj::MtlLibsLoadError(errs))
        }
    }

    /// Loads the libraries from the texts that `resolve` gives for the `.obj` file's directory
    /// and each library's file name, as `load_mtls_from` does.
    pub fn load_mtls_fn<F: Fn(&str, &str) -> Result<String, std::io::Error>>(
        &mut self,
        resolve: F,
    ) -> (r: Result<(), crate::obj::MtlLibsLoadError>)
        requires
            forall|a: &str, b: &str| resolve.requires((a, b)),
        ensures
            final(self).path == old(self).path,
            exists|cs: Seq<Result<String, std::io::Error>>|
                {
                    &&& cs.len() == old(self).data@.material_libs.len()
                    &&& forall|k: int|
                        0 <= k < cs.len() ==> fetched(
                            resolve,
                            old(self).path@,
                            old(self).data.material_libs@[k].filename@,
                            #[trigger] cs[k],
                        )
                    &&& final(self).data@ == with_libraries(old(self).data@, content_views(cs))
                    &&& match r {
                        Ok(_) => load_failures(
                            old(self).data@.material_libs,
                            content_views(cs),
                        ).len() == 0,
                        Err(e) => e.failures() == load_failures(
                            old(self).data@.material_libs,
                            content_views(cs),
                        ) && e.failures().len() > 0,
                    }
                },
    {
        let mut contents: Vec<Result<String, std::io::Error>> = Vec::new();
        let mut i: usize = 0;
        while i < self.data.material_libs.len()
            invariant
                i <= self.data.material_libs@.len(),
                contents@.len() == i,
                forall|a: &str, b: &str| resolve.requires((a, b)),
                forall|k: int|
                    0 <= k < i ==> fetched(
                        resolve,
                        self.path@,
                        self.data.material_libs@[k].filename@,
                        #[trigger] contents@[k],
                    ),
            decreases self.data.material_libs.len() - i,
        {
            let a = self.path.as_str();
            let b = self.data.material_libs[i].filename.as_str();
            let c = resolve(a, b);
            assert(fetched(resolve, self.path@, self.data.material_libs@[i as int].filename@, c));
            contents.push(c);
            assert(contents@[i as int] == c);
            i = i + 1;
        }
        let ghost cs = contents@;
        let r = self.load_mtls_from(contents);
        assert(cs.len() == old(self).data@.material_libs.len());
        r
    }
}

} // verus!
