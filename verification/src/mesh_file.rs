use vstd::prelude::*;

use std::num::{ParseFloatError, ParseIntError};

use crate::int_text::{parse_usize, usize_text_ok, usize_text_value};
use crate::obj_file::{chars_equal, lines_of, text_lines, texts};
use crate::text::{Separator, chars_to_string, split, split_chars, str_chars, trim, trim_chars, views};

verus! {

#[verifier::external_type_specification]
#[verifier::external_body]
pub struct ExParseFloatError(ParseFloatError);

#[verifier::external_type_specification]
#[verifier::external_body]
pub struct ExIoError(std::io::Error);

/// Why a mesh file could not be read.
#[derive(Debug)]
pub enum ParseMeshErr {
    InvalidFace(&'static str),
    InvalidVertex(&'static str),
    IoError(std::io::Error),
    InvalidIndex(ParseIntError),
    InvalidFloat(ParseFloatError),
}

/// The first fault of a face line, in the order the line is read.
#[derive(Debug, Clone, Copy, PartialEq, Eq, Structural)]
pub enum FaceLineFault {
    /// A vertex index that is read is not an unsigned integer.
    BadIndex,
    /// The line ends after the first vertex.
    MissingVertex1,
    /// The line ends after the second vertex.
    MissingVertex2,
    /// The line goes on after the third vertex.
    ExtraVertex,
}

/// The first fault of a face line cut into `pieces`, if any.
pub open spec fn face_line_fault(pieces: Seq<Seq<char>>) -> Option<FaceLineFault> {
    if !usize_text_ok(pieces[0]) {
        Some(FaceLineFault::BadIndex)
    } else if pieces.len() < 2 {
        Some(FaceLineFault::MissingVertex1)
    } else if !usize_text_ok(pieces[1]) {
        Some(FaceLineFault::BadIndex)
    } else if pieces.len() < 3 {
        Some(FaceLineFault::MissingVertex2)
    } else if !usize_text_ok(pieces[2]) {
        Some(FaceLineFault::BadIndex)
    } else if pieces.len() > 3 {
        Some(FaceLineFault::ExtraVertex)
    } else {
        None
    }
}

/// The white-space separated pieces of a trimmed face line.
pub open spec fn face_line_pieces(line: Seq<char>) -> Seq<Seq<char>> {
    split(trim(line), Separator::Whitespace)
}

fn parse_piece(pieces: &Vec<Vec<char>>, i: usize) -> (r: Result<usize, ParseIntError>)
    requires
        i < pieces@.len(),
    ensures
        r is Ok <==> usize_text_ok(pieces@[i as int]@),
        r matches Ok(n) ==> n == usize_text_value(pieces@[i as int]@),
{
    let text = chars_to_string(pieces[i].as_slice());
    parse_usize(text.as_str())
}

/// Reads a face line: three white-space separated vertex indices.
pub fn parse_face_line(line: &str) -> (r: Result<(usize, usize, usize), ParseMeshErr>)
    ensures
        ({
            let pieces = face_line_pieces(line@);
            match face_line_fault(pieces) {
                None => r == Ok::<(usize, usize, usize), ParseMeshErr>(
                    (
                        usize_text_value(pieces[0]) as usize,
                        usize_text_value(pieces[1]) as usize,
                        usize_text_value(pieces[2]) as usize,
                    ),
                ),
                Some(FaceLineFault::BadIndex) => r matches Err(ParseMeshErr::InvalidIndex(_)),
                Some(FaceLineFault::MissingVertex1) => r matches Err(ParseMeshErr::InvalidFace(m))
                    && m@ == "expected vertex 1"@,
                Some(FaceLineFault::MissingVertex2) => r matches Err(ParseMeshErr::InvalidFace(m))
                    && m@ == "expected vertex 2"@,
                Some(FaceLineFault::ExtraVertex) => r matches Err(ParseMeshErr::InvalidFace(m))
                    && m@ == "unexpected extra vertex"@,
            }
        }),
{
    let chars = str_chars(line);
    let trimmed = trim_chars(chars.as_slice());
    let pieces = split_chars(trimmed.as_slice(), Separator::Whitespace);
    let ghost ps = views(pieces@);
    proof {
        crate::text::lemma_split_nonempty(trimmed@, Separator::Whitespace);
        assert(ps == face_line_pieces(line@));
        assert(ps[0] == pieces@[0]@);
    }
    let a = match parse_piece(&pieces, 0) {
        Ok(n) => n,
        Err(e) => return Err(ParseMeshErr::InvalidIndex(e)),
    };
    if pieces.len() < 2 {
        return Err(ParseMeshErr::InvalidFace("expected vertex 1"));
    }
    assert(ps[1] == pieces@[1]@);
    let b = match parse_piece(&pieces, 1) {
        Ok(n) => n,
        Err(e) => return Err(ParseMeshErr::InvalidIndex(e)),
    };
    if pieces.len() < 3 {
        return Err(ParseMeshErr::InvalidFace("expected vertex 2"));
    }
    assert(ps[2] == pieces@[2]@);
    let c = match parse_piece(&pieces, 2) {
        Ok(n) => n,
        Err(e) => return Err(ParseMeshErr::InvalidIndex(e)),
    };
    if pieces.len() > 3 {
        return Err(ParseMeshErr::InvalidFace("unexpected extra vertex"));
    }
    Ok((a, b, c))
}

/// The trimmed lines that are not empty, in order.
pub open spec fn clean_lines(lines: Seq<Seq<char>>) -> Seq<Seq<char>>
    decreases lines.len(),
{
    if lines.len() == 0 {
        Seq::empty()
    } else {
        let kept = clean_lines(lines.drop_last());
        let t = trim(lines.last());
        if t.len() > 0 {
            kept.push(t)
        } else {
            kept
        }
    }
}

/// The lines after the first one that is `marker` (none if no line is).
pub open spec fn skip_past(lines: Seq<Seq<char>>, marker: Seq<char>) -> Seq<Seq<char>>
    decreases lines.len(),
{
    if lines.len() == 0 {
        Seq::empty()
    } else if lines[0] == marker {
        lines.drop_first()
    } else {
        skip_past(lines.drop_first(), marker)
    }
}

/// The lines before the first one that is `marker` (all if no line is).
pub open spec fn take_until(lines: Seq<Seq<char>>, marker: Seq<char>) -> Seq<Seq<char>>
    decreases lines.len(),
{
    if lines.len() == 0 || lines[0] == marker {
        Seq::empty()
    } else {
        seq![lines[0]] + take_until(lines.drop_first(), marker)
    }
}

/// The face lines of a mesh file: those after its first `faces` line, up to
/// the next `vertices` line.
pub open spec fn face_section(text: Seq<char>) -> Seq<Seq<char>> {
    take_until(skip_past(clean_lines(text_lines(text)), "faces"@), "vertices"@)
}

/// The vertex lines of a mesh file: those after its first `vertices` line, up
/// to the next `faces` line.
pub open spec fn vertex_section(text: Seq<char>) -> Seq<Seq<char>> {
    take_until(skip_past(clean_lines(text_lines(text)), "vertices"@), "faces"@)
}

/// The lines of `lines` after the first `marker` line, up to the next `stop` line.
fn section(lines: &Vec<Vec<char>>, marker: &str, stop: &str) -> (r: Vec<String>)
    ensures
        texts(r@) == take_until(skip_past(views(lines@), marker@), stop@),
{
    let ghost ls = views(lines@);
    let mut i: usize = 0;
    assert(ls.skip(0) =~= ls);
    while i < lines.len() && !chars_equal(lines[i].as_slice(), marker)
        invariant
            i <= lines@.len(),
            ls == views(lines@),
            skip_past(ls, marker@) == skip_past(ls.skip(i as int), marker@),
        decreases lines@.len() - i,
    {
        assert(ls.skip(i as int)[0] == ls[i as int]);
        assert(ls.skip(i as int).drop_first() =~= ls.skip(i + 1));
        i += 1;
    }
    let mut out: Vec<String> = Vec::new();
    if i == lines.len() {
        assert(ls.skip(i as int) =~= Seq::<Seq<char>>::empty());
        assert(texts(out@) =~= Seq::<Seq<char>>::empty());
        return out;
    }
    assert(ls.skip(i as int)[0] == ls[i as int]);
    assert(ls.skip(i as int).drop_first() =~= ls.skip(i + 1));
    let ghost rest = ls.skip(i + 1);
    let mut j: usize = i + 1;
    while j < lines.len() && !chars_equal(lines[j].as_slice(), stop)
        invariant
            i + 1 <= j <= lines@.len(),
            ls == views(lines@),
            rest == ls.skip(i + 1),
            take_until(rest, stop@) == texts(out@) + take_until(ls.skip(j as int), stop@),
        decreases lines@.len() - j,
    {
        let ghost before = out@;
        assert(ls.skip(j as int)[0] == ls[j as int]);
        assert(ls.skip(j as int).drop_first() =~= ls.skip(j + 1));
        out.push(chars_to_string(lines[j].as_slice()));
        assert(texts(out@) =~= texts(before).push(ls[j as int]));
        assert(texts(before) + (seq![ls[j as int]] + take_until(ls.skip(j + 1), stop@)) =~= texts(out@)
            + take_until(ls.skip(j + 1), stop@));
        j += 1;
    }
    if j < lines.len() {
        assert(ls.skip(j as int)[0] == ls[j as int]);
    } else {
        assert(ls.skip(j as int) =~= Seq::<Seq<char>>::empty());
    }
    assert(texts(out@) + Seq::<Seq<char>>::empty() =~= texts(out@));
    out
}

/// The trimmed lines of `text` that are not empty.
fn clean_lines_of(text: &str) -> (r: Vec<Vec<char>>)
    ensures
        views(r@) == clean_lines(text_lines(text@)),
{
    let lines = lines_of(text);
    let ghost ls = text_lines(text@);
    let mut out: Vec<Vec<char>> = Vec::new();
    let mut i: usize = 0;
    while i < lines.len()
        invariant
            i <= lines@.len(),
            views(lines@) == ls,
            views(out@) == clean_lines(ls.take(i as int)),
        decreases lines@.len() - i,
    {
        let ghost before = out@;
        assert(ls.take(i + 1).drop_last() =~= ls.take(i as int));
        assert(ls.take(i + 1).last() == lines@[i as int]@);
        let t = trim_chars(lines[i].as_slice());
        if t.len() > 0 {
            out.push(t);
            assert(views(out@) =~= views(before).push(t@));
        }
        i += 1;
    }
    assert(ls.take(ls.len() as int) =~= ls);
    out
}

/// The face lines and the vertex lines of a mesh file (see `face_section` and
/// `vertex_section`), trimmed.
pub fn mesh_file_sections(text: &str) -> (r: (Vec<String>, Vec<String>))
    ensures
        texts(r.0@) == face_section(text@),
        texts(r.1@) == vertex_section(text@),
{
    let lines = clean_lines_of(text);
    let faces = section(&lines, "faces", "vertices");
    let vertices = section(&lines, "vertices", "faces");
    (faces, vertices)
}

/// What `parse_face_line` gives for `line`.
pub open spec fn face_line_outcome(line: Seq<char>, r: Result<(usize, usize, usize), ParseMeshErr>) -> bool {
    let pieces = face_line_pieces(line);
    match face_line_fault(pieces) {
        None => r == Ok::<(usize, usize, usize), ParseMeshErr>(face_line_value(line)),
        Some(FaceLineFault::BadIndex) => r matches Err(ParseMeshErr::InvalidIndex(_)),
        Some(FaceLineFault::MissingVertex1) => r matches Err(ParseMeshErr::InvalidFace(m)) && m@ == "expected vertex 1"@,
        Some(FaceLineFault::MissingVertex2) => r matches Err(ParseMeshErr::InvalidFace(m)) && m@ == "expected vertex 2"@,
        Some(FaceLineFault::ExtraVertex) => r matches Err(ParseMeshErr::InvalidFace(m)) && m@
            == "unexpected extra vertex"@,
    }
}

/// The three vertex indices of a face line.
pub open spec fn face_line_value(line: Seq<char>) -> (usize, usize, usize) {
    let pieces = face_line_pieces(line);
    (usize_text_value(pieces[0]) as usize, usize_text_value(pieces[1]) as usize, usize_text_value(pieces[2]) as usize)
}

/// Every one of `ls` is a face line without fault.
pub open spec fn faces_readable(ls: Seq<Seq<char>>) -> bool {
    forall|k: int| 0 <= k < ls.len() ==> face_line_fault(face_line_pieces(#[trigger] ls[k])) is None
}

/// `e` is what `parse_face_line` gives for the first of `ls` with a fault.
pub open spec fn first_bad_face_line(ls: Seq<Seq<char>>, e: ParseMeshErr) -> bool {
    exists|k: int|
        0 <= k < ls.len() && faces_readable(ls.take(k)) && face_line_fault(face_line_pieces(ls[k])) is Some
            && #[trigger] face_line_outcome(ls[k], Err(e))
}

/// Reads the faces of a mesh file: each line of its face section (see
/// `face_section`) in order, as `parse_face_line` reads it; the error of the
/// first line that cannot be read.
pub fn parse_mesh_faces(text: &str) -> (r: Result<Vec<(usize, usize, usize)>, ParseMeshErr>)
    ensures
        r is Ok <==> faces_readable(face_section(text@)),
        r matches Ok(f) ==> f@ == face_section(text@).map_values(|l: Seq<char>| face_line_value(l)),
        r matches Err(e) ==> first_bad_face_line(face_section(text@), e),
{
    let (lines, _) = mesh_file_sections(text);
    let ghost ls = face_section(text@);
    let mut faces: Vec<(usize, usize, usize)> = Vec::new();
    let mut i: usize = 0;
    while i < lines.len()
        invariant
            i <= lines@.len(),
            texts(lines@) == ls,
            ls == face_section(text@),
            faces@.len() == i,
            forall|q: int| 0 <= q < i ==> face_line_fault(face_line_pieces(#[trigger] ls[q])) is None,
            forall|q: int| 0 <= q < i ==> #[trigger] faces@[q] == face_line_value(ls[q]),
        decreases lines@.len() - i,
    {
        assert(ls[i as int] == lines@[i as int]@);
        let r = parse_face_line(lines[i].as_str());
        match r {
            Ok(f) => {
                faces.push(f);
            },
            Err(e) => {
                proof {
                    assert(face_line_outcome(ls[i as int], r));
                    assert(r == Err::<(usize, usize, usize), ParseMeshErr>(e));
                    assert(face_line_outcome(ls[i as int], Err(e)));
                    assert(forall|q: int| 0 <= q < i ==> face_line_fault(face_line_pieces(#[trigger] ls[q])) is None);
                    assert(face_line_fault(face_line_pieces(ls[i as int])) is Some);
                    assert(!faces_readable(ls));
                    assert(faces_readable(ls.take(i as int))) by {
                        assert forall|k: int| 0 <= k < i implies face_line_fault(face_line_pieces(#[trigger] ls.take(i as int)[k])) is None by {
                            assert(ls.take(i as int)[k] == ls[k]);
                        }
                    }
                    assert(first_bad_face_line(ls, e));
                }
                return Err(e);
            },
        }
        i += 1;
    }
    assert(faces@ =~= ls.map_values(|l: Seq<char>| face_line_value(l)));
    Ok(faces)
}

} // verus!
