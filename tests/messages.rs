use obj::{MtlError, MtlMissingType, ObjData, ObjError};

#[test]
fn obj_error_messages() {
    let e = ObjData::load_buf("v 1 1 1\nf x 1 1\n").unwrap_err();
    assert_eq!(e.to_string(), "One of the arguments to `f` is malformed (line: 1, group: x)");
    let e = ObjData::load_buf("\n\n\n\n\n\n\n\n\n\n\n\nv 1\n").unwrap_err();
    assert_eq!(
        e.to_string(),
        "An argument list either has unparsable arguments or is missing arguments. (line: 12, list: 1)"
    );
    let e = ObjData::load_buf("bogus 1\n").unwrap_err();
    assert_eq!(e.to_string(), "Command found that is not in the .obj spec. (line: 0, command: bogus)");
    let e = ObjData::load_buf("mtllib\n").unwrap_err();
    assert_eq!(e.to_string(), "mtllib command issued, but no name was specified. (line: 0)");
    let e = ObjData::load_buf("f 0 1 2\n").unwrap_err();
    assert_eq!(e.to_string(), "Zero vertex numbers are invalid. (line: 0)");
    let e = ObjError::GenMeshWrongNumberOfVertsInPolygon { vert_count: 105 };
    assert_eq!(e.to_string(), "[`genmesh::Polygon`] only supports triangles and squares. (vertex count: 105");
    let e = ObjError::from(std::io::Error::new(std::io::ErrorKind::Other, "disk gone"));
    assert_eq!(e.to_string(), "I/O error loading a .obj file: disk gone");
}

#[test]
fn mtl_error_messages() {
    assert_eq!(MtlError::InvalidInstruction("foo".into()).to_string(), "Unsupported mtl instruction: foo");
    assert_eq!(MtlError::InvalidValue("x".into()).to_string(), "Attempted to parse the value 'x' but failed.");
    assert_eq!(MtlError::MissingMaterialName.to_string(), "newmtl issued, but no name provided.");
    assert_eq!(
        MtlError::MissingValue(MtlMissingType::F32).to_string(),
        "Instruction is missing a value of type 'f32'"
    );
    assert_eq!(MtlMissingType::String.to_string(), "String");
    assert_eq!(MtlMissingType::I32.to_string(), "i32");
    let e = MtlError::from(std::io::Error::new(std::io::ErrorKind::NotFound, "no file"));
    assert_eq!(e.to_string(), "I/O error loading a .mtl file: no file");
}
