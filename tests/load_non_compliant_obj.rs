use obj::{LoadConfig, ObjData, ObjError};

/// A square with extra commands of a third party.
const SQUARE_EXTENDED: &str = "
scale 1
vt 0 0
adjf 0 1
vt 1 0
adjf 0
vt 1 1
adjf 0 1
vt 0 1
adjf 1
v 0 0 0.01
ny 0 0 0
adje 0 1 3
v 1 0 0.01
ny 1 0 0
adje 1 2
v 0 0.98480775301220813 0.18364817766693034
ny 0 1 0
adje 3 4
v 1 0.98480775301220813 0.18364817766693034
ny 1 1 0
adje 0 2 4
e 4 1
e 1 2
e 2 4
e 3 1
e 4 3
f 4/3 1/1 2/2
f 3/4 1/1 4/3
";

/// The same square with only the commands of the format.
const SQUARE_STRICT: &str = "
vt 0 0
vt 1 0
vt 1 1
vt 0 1
v 0 0 0.01
v 1 0 0.01
v 0 0.98480775301220813 0.18364817766693034
v 1 0.98480775301220813 0.18364817766693034
f 4/3 1/1 2/2
f 3/4 1/1 4/3
";

#[test]
fn load_square_non_compliant() {
    let permissive_config = LoadConfig { strict: false };

    let obj_ext = ObjData::load_buf_with_config(SQUARE_EXTENDED, permissive_config).unwrap();
    let obj_basic = ObjData::load_buf_with_config(SQUARE_STRICT, permissive_config).unwrap();

    assert_eq!(obj_basic, obj_ext);

    let strict_config = LoadConfig { strict: true };

    assert!(ObjData::load_buf_with_config(SQUARE_EXTENDED, strict_config).is_err());
}

#[test]
fn strict_mode_names_first_unknown_command() {
    match ObjData::load_buf_with_config(SQUARE_EXTENDED, LoadConfig { strict: true }) {
        Err(ObjError::UnexpectedCommand { line_number, command }) => {
            assert_eq!(line_number, 1);
            assert_eq!(command, "scale");
        }
        other => panic!("unexpected result {:?}", other),
    }
}

#[test]
fn strict_and_permissive_agree_on_compliant_text() {
    let a = ObjData::load_buf_with_config(SQUARE_STRICT, LoadConfig { strict: true }).unwrap();
    let b = ObjData::load_buf_with_config(SQUARE_STRICT, LoadConfig { strict: false }).unwrap();
    assert_eq!(a, b);
    assert_eq!(a.texture.len(), 4);
    assert_eq!(a.objects[0].groups[0].polys.len(), 2);
}

#[test]
fn comments_are_skipped_in_strict_mode() {
    let a = ObjData::load_buf("# a comment\nv 1 2 3\n#another\n").unwrap();
    assert_eq!(a.position.len(), 1);
    assert_eq!(a.position[0][2].as_str(), "3");
}
