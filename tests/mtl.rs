use obj::{FloatLit, Mtl, MtlError, MtlMissingType, Obj, ObjData, ObjMaterial, Parser};
use std::io;
use std::sync::Arc;

const LIB: &str = "
# a comment
Ka 9 9 9
newmtl red
Ka 0.1 0.2 0.3
Kd 1 0 0
Ks 0.5 0.5 0.5
Ke 0 0 0
Ns 10
Ni 1.5
Km 0.25
d 0.9
Tr 0.1
Tf 1 1 1
illum -2
map_Ka amb.png
map_Kd my texture.png
map_Ks spec.png
map_d alpha.png
refl sky box.png
map_Bump bumps.png
newmtl blue
Kd 0 0 1
";

fn lits(v: &Option<[FloatLit; 3]>) -> Option<Vec<String>> {
    v.as_ref().map(|a| a.iter().map(|x| x.as_str().to_string()).collect())
}

#[test]
fn reads_all_properties() {
    let mut lib = Mtl::new(String::from("lib.mtl"));
    lib.reload(LIB).unwrap();
    assert_eq!(lib.filename, "lib.mtl");
    assert_eq!(lib.materials.len(), 2);
    let red = &lib.materials[0];
    assert_eq!(red.name, "red");
    assert_eq!(lits(&red.ka), Some(vec!["0.1".into(), "0.2".into(), "0.3".into()]));
    assert_eq!(lits(&red.kd), Some(vec!["1".into(), "0".into(), "0".into()]));
    assert_eq!(red.ns.as_ref().unwrap().as_str(), "10");
    assert_eq!(red.km.as_ref().unwrap().as_str(), "0.25");
    assert_eq!(red.illum, Some(-2));
    assert_eq!(red.map_kd.as_deref(), Some("my texture.png"));
    assert_eq!(red.map_refl.as_deref(), Some("sky box.png"));
    assert_eq!(red.map_bump.as_deref(), Some("bumps.png"));
    assert!(red.map_ke.is_none());
    let blue = &lib.materials[1];
    assert_eq!(blue.name, "blue");
    assert!(blue.ka.is_none());
    assert_eq!(lits(&blue.kd), Some(vec!["0".into(), "0".into(), "1".into()]));
}

#[test]
fn writes_and_reads_back() {
    let mut lib = Mtl::new(String::from("lib.mtl"));
    lib.reload(LIB).unwrap();
    let mut out = String::new();
    lib.write_to_buf(&mut out);
    assert!(out.starts_with("newmtl red\nKa 0.1 0.2 0.3\nKd 1 0 0\nKs 0.5 0.5 0.5\nKe 0 0 0\nNs 10\nNi 1.5\nKm 0.25\nd 0.9\nTr 0.1\nTf 1 1 1\nillum -2\nmap_Ka amb.png\nmap_Kd my texture.png\n"));
    assert!(out.ends_with("refl sky box.png\nbump bumps.png\nnewmtl blue\nKd 0 0 1\n"));
    let mut again = Mtl::new(String::from("lib.mtl"));
    again.reload(&out).unwrap();
    assert_eq!(again, lib);
}

fn reload_err(text: &str) -> MtlError {
    let mut lib = Mtl::new(String::from("x.mtl"));
    let e = lib.reload(text).unwrap_err();
    assert!(lib.materials.is_empty());
    e
}

#[test]
fn mtl_errors() {
    assert!(matches!(reload_err("newmtl\n"), MtlError::MissingMaterialName));
    assert!(matches!(reload_err("newmtl a\nfoo 1\n"), MtlError::InvalidInstruction(s) if s == "foo"));
    assert!(matches!(reload_err("newmtl a\nKa 1 x 3\n"), MtlError::InvalidValue(s) if s == "1 x 3"));
    assert!(matches!(reload_err("newmtl a\nKa 1 2\n"), MtlError::InvalidValue(s) if s == "1 2"));
    assert!(matches!(reload_err("newmtl a\nNs abc\n"), MtlError::InvalidValue(s) if s == "abc"));
    assert!(matches!(reload_err("newmtl a\nillum 1.5\n"), MtlError::InvalidValue(s) if s == "1.5"));
    assert!(matches!(reload_err("newmtl a\nNs\n"), MtlError::MissingValue(MtlMissingType::F32)));
    assert!(matches!(reload_err("newmtl a\nillum\n"), MtlError::MissingValue(MtlMissingType::I32)));
    assert!(matches!(reload_err("newmtl a\nmap_Kd\n"), MtlError::MissingValue(MtlMissingType::String)));
    // Instructions before the first material are not read.
    let mut lib = Mtl::new(String::from("x.mtl"));
    lib.reload("Ns abc\nillum\n").unwrap();
    assert!(lib.materials.is_empty());
}

#[test]
fn parser_reads_arguments() {
    let line: Vec<char> = "illum 7 rest of  it".chars().collect();
    let mut p = Parser::new(&line);
    assert_eq!(p.next_word().map(|w| w.into_iter().collect::<String>()), Some("illum".to_string()));
    assert_eq!(p.get_i32().unwrap(), 7);
    assert_eq!(p.into_string().unwrap(), "rest of it");
    let line: Vec<char> = "illum 99999999999".chars().collect();
    let mut p = Parser::new(&line);
    p.next_word();
    assert!(matches!(p.get_i32(), Err(MtlError::InvalidValue(s)) if s == "99999999999"));
}

const LIB_A: &str = "newmtl red\nKd 1 0 0\nnewmtl green\nKd 0 1 0\n";
const LIB_B: &str = "newmtl red\nKd 0.5 0 0\nnewmtl blue\nKd 0 0 1\n";

fn fetch(_dir: &str, name: &str) -> Result<String, io::Error> {
    match name {
        "a.mtl" => Ok(LIB_A.to_string()),
        "b.mtl" => Ok(LIB_B.to_string()),
        "bad.mtl" => Ok(String::from("newmtl x\nbogus\n")),
        _ => Err(io::Error::new(io::ErrorKind::NotFound, "no such library")),
    }
}

const SCENE: &str = "mtllib a.mtl b.mtl
mtllib b.mtl
v 0 0 0
g one
usemtl red
f 1 1 1
g two
usemtl blue
f 1 1 1
g three
usemtl gold
f 1 1 1
";

#[test]
fn first_listed_library_wins() {
    let text = SCENE.replacen("mtllib a.mtl b.mtl", "mtllib a.mtl", 1);
    let mut obj = Obj { data: ObjData::load_buf(&text).unwrap(), path: String::new() };
    obj.load_mtls_fn(fetch).unwrap();
    let groups = &obj.data.objects[0].groups;
    match &groups[0].material {
        Some(ObjMaterial::Mtl(m)) => {
            assert_eq!(m.name, "red");
            assert_eq!(m.kd.as_ref().unwrap()[0].as_str(), "1");
            assert!(Arc::ptr_eq(m, &obj.data.material_libs[0].materials[0]));
        }
        other => panic!("unexpected material {:?}", other),
    }
    match &groups[1].material {
        Some(ObjMaterial::Mtl(m)) => assert_eq!(m.kd.as_ref().unwrap()[2].as_str(), "1"),
        other => panic!("unexpected material {:?}", other),
    }
    // A name that no library defines stays as written.
    assert!(matches!(&groups[2].material, Some(ObjMaterial::Ref(n)) if n == "gold"));
}

#[test]
fn failing_libraries_are_listed_and_others_loaded() {
    let text = SCENE.replacen("mtllib a.mtl b.mtl", "mtllib missing.mtl\nmtllib bad.mtl", 1);
    let mut obj = Obj { data: ObjData::load_buf(&text).unwrap(), path: String::from("dir") };
    let errs = obj.load_mtls_fn(fetch).unwrap_err();
    assert_eq!(errs.0.len(), 2);
    assert_eq!(errs.0[0].0, "missing.mtl");
    assert!(matches!(errs.0[0].1, MtlError::Io(_)));
    assert_eq!(errs.0[1].0, "bad.mtl");
    assert!(matches!(&errs.0[1].1, MtlError::InvalidInstruction(s) if s == "bogus"));
    assert!(obj.data.material_libs[0].materials.is_empty());
    assert!(obj.data.material_libs[1].materials.is_empty());
    assert_eq!(obj.data.material_libs[2].materials.len(), 2);
    // `b.mtl` still binds `red` and `blue`.
    match &obj.data.objects[0].groups[0].material {
        Some(ObjMaterial::Mtl(m)) => assert_eq!(m.kd.as_ref().unwrap()[0].as_str(), "0.5"),
        other => panic!("unexpected material {:?}", other),
    }
}

#[test]
fn load_from_contents() {
    let mut obj = Obj { data: ObjData::load_buf("mtllib a.mtl\nusemtl green\n").unwrap(), path: String::new() };
    obj.load_mtls_from(vec![Ok(LIB_A.to_string())]).unwrap();
    assert!(matches!(&obj.data.objects[0].groups[0].material, Some(ObjMaterial::Mtl(m)) if m.name == "green"));
    let mut lib = Mtl::new(String::from("a.mtl"));
    assert!(lib.reload_with("", fetch).is_ok());
    assert_eq!(lib.materials.len(), 2);
    let mut missing = Mtl::new(String::from("nope.mtl"));
    assert!(matches!(missing.reload_with("", fetch), Err(MtlError::Io(_))));
}

#[test]
fn reload_with_keeps_library_on_io_error() {
    let mut lib = Mtl::new(String::from("a.mtl"));
    lib.reload(LIB_A).unwrap();
    lib.filename = String::from("gone.mtl");
    let before = lib.clone();
    assert!(matches!(lib.reload_with("", fetch), Err(MtlError::Io(_))));
    assert_eq!(lib, before);
    assert_eq!(lib.materials.len(), 2);
}
