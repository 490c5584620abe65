//! Messages that describe the errors of reading.

use vstd::prelude::*;
use vstd::string::*;

use crate::mtl::{MtlError, MtlErrorView, MtlMissingType};
use crate::obj::{ObjError, ObjErrorView};
use crate::write::{dec, write_dec};

verus! {

/// Relies on `std::io::Error`'s `Display`; what it says depends on the system.
#[verifier::external_body]
fn io_text(e: &std::io::Error) -> (r: String) {
    format!("{}", e)
}

pub open spec fn missing_type_text(t: MtlMissingType) -> Seq<char> {
    match t {
        MtlMissingType::I32 => "i32"@,
        MtlMissingType::F32 => "f32"@,
        MtlMissingType::String => "String"@,
    }
}

impl MtlMissingType {
    /// The name of the type.
    pub fn to_string(&self) -> (r: String)
        ensures
            r@ == missing_type_text(*self),
    {
        match self {
            MtlMissingType::I32 => String::from_str("i32"),
            MtlMissingType::F32 => String::from_str("f32"),
            MtlMissingType::String => String::from_str("String"),
        }
    }
}

/// The message of an error of `.mtl` reading, but for an I/O error, whose text the system
/// gives.
pub open spec fn mtl_error_text(e: MtlErrorView) -> Seq<char> {
    match e {
        MtlErrorView::Io => "I/O error loading a .mtl file: "@,
        MtlErrorView::InvalidInstruction(s) => "Unsupported mtl instruction: "@ + s,
        MtlErrorView::InvalidValue(s) => "Attempted to parse the value '"@ + s + "' but failed."@,
        MtlErrorView::MissingMaterialName => "newmtl issued, but no name provided."@,
        MtlErrorView::MissingValue(t) => "Instruction is missing a value of type '"@
            + missing_type_text(t) + "'"@,
    }
}

impl MtlError {
    /// A message that describes the error.
    pub fn to_string(&self) -> (r: String)
        ensures
            self@ is Io ==> r@.take(mtl_error_text(self@).len() as int) == mtl_error_text(self@),
            !(self@ is Io) ==> r@ == mtl_error_text(self@),
    {
        let mut out = String::new();
        match self {
            MtlError::Io(e) => {
                out.append("I/O error loading a .mtl file: ");
                let ghost head = out@;
                out.append(io_text(e).as_str());
                assert(out@.take(head.len() as int) =~= head);
            },
            MtlError::InvalidInstruction(s) => {
                out.append("Unsupported mtl instruction: ");
                out.append(s.as_str());
            },
            MtlError::InvalidValue(s) => {
                out.append("Attempted to parse the value '");
                out.append(s.as_str());
                out.append("' but failed.");
            },
            MtlError::MissingMaterialName => {
                out.append("newmtl issued, but no name provided.");
            },
            MtlError::MissingValue(t) => {
                out.append("Instruction is missing a value of type '");
                out.append(t.to_string().as_str());
                out.append("'");
            },
        }
        assert(!(self@ is Io) ==> out@ =~= mtl_error_text(self@));
        out
    }
}

/// The message of an error of `.obj` reading, but for an I/O error, whose text the system
/// gives.
pub open spec fn obj_error_text(e: ObjErrorView) -> Seq<char> {
    match e {
        ObjErrorView::Io => "I/O error loading a .obj file: "@,
        ObjErrorView::MalformedFaceGroup { line_number, group } =>
            "One of the arguments to `f` is malformed (line: "@ + dec(line_number) + ", group: "@
                + group + ")"@,
        ObjErrorView::ArgumentListFailure { line_number, list } =>
            "An argument list either has unparsable arguments or is missing arguments. (line: "@
                + dec(line_number) + ", list: "@ + list + ")"@,
        ObjErrorView::UnexpectedCommand { line_number, command } =>
            "Command found that is not in the .obj spec. (line: "@ + dec(line_number)
                + ", command: "@ + command + ")"@,
        ObjErrorView::MissingMTLName { line_number } =>
            "mtllib command issued, but no name was specified. (line: "@ + dec(line_number) + ")"@,
        ObjErrorView::ZeroVertexNumber { line_number } =>
            "Zero vertex numbers are invalid. (line: "@ + dec(line_number) + ")"@,
        ObjErrorView::GenMeshWrongNumberOfVertsInPolygon { vert_count } =>
            "[`genmesh::Polygon`] only supports triangles and squares. (vertex count: "@ + dec(vert_count),
    }
}

impl ObjError {
    /// A message that describes the error.
    pub fn to_string(&self) -> (r: String)
        ensures
            self@ is Io ==> r@.take(obj_error_text(self@).len() as int) == obj_error_text(self@),
            !(self@ is Io) ==> r@ == obj_error_text(self@),
    {
        let mut out = String::new();
        match self {
            ObjError::Io(e) => {
                out.append("I/O error loading a .obj file: ");
                let ghost head = out@;
                out.append(io_text(e).as_str());
                assert(out@.take(head.len() as int) =~= head);
            },
            ObjError::MalformedFaceGroup { line_number, group } => {
                out.append("One of the arguments to `f` is malformed (line: ");
                write_dec(&mut out, *line_number as u128);
                out.append(", group: ");
                out.append(group.as_str());
                out.append(")");
            },
            ObjError::ArgumentListFailure { line_number, list } => {
                out.append(
                    "An argument list either has unparsable arguments or is missing arguments. (line: ",
                );
                write_dec(&mut out, *line_number as u128);
                out.append(", list: ");
                out.append(list.as_str());
                out.append(")");
            },
            ObjError::UnexpectedCommand { line_number, command } => {
                out.append("Command found that is not in the .obj spec. (line: ");
                write_dec(&mut out, *line_number as u128);
                out.append(", command: ");
                out.append(command.as_str());
                out.append(")");
            },
            ObjError::MissingMTLName { line_number } => {
                out.append("mtllib command issued, but no name was specified. (line: ");
                write_dec(&mut out, *line_number as u128);
                out.append(")");
            },
            ObjError::ZeroVertexNumber { line_number } => {
                out.append("Zero vertex numbers are invalid. (line: ");
                write_dec(&mut out, *line_number as u128);
                out.append(")");
            },
            ObjError::GenMeshWrongNumberOfVertsInPolygon { vert_count } => {
                out.append("[`genmesh::Polygon`] only supports triangles and squares. (vertex count: ");
                write_dec(&mut out, *vert_count as u128);
                
            },
        }
        assert(!(self@ is Io) ==> out@ =~= obj_error_text(self@));
        out
    }
}

} // verus!
