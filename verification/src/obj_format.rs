use vstd::prelude::*;

use std::num::ParseIntError;

use crate::format::{decimal, push_decimal};
use crate::int_text::{parse_usize, usize_text_ok, usize_text_value};
use crate::obj_file::{
    ObjError, chars_equal, lines_of, numbers_ok, push_str, text_lines, texts, trimmed_string, try_parse_numbers,
};
use crate::text::{Separator, chars_to_string, split, split_chars, str_chars, trim, trim_chars, views};

verus! {

/// One corner of an OBJ face: `v/vt?/vn?` indices into the vertex, texture
/// coordinate and normal lists.
#[derive(Default, Copy, Clone, Debug, PartialEq, Eq, Structural)]
pub struct TriVertex {
    pub vertex_index: usize,
    pub uv_index: Option<usize>,
    pub normal_index: Option<usize>,
}

/// Why a face vertex could not be read.
#[derive(Debug)]
pub enum VertexParseError {
    /// The vertex has more than three `/`-separated parts.
    UnexpectedPartCount,
    /// A part is not an unsigned integer.
    ParseIntError(ParseIntError),
}

/// A triangular face.
#[derive(Copy, Clone, Debug, PartialEq, Eq, Structural)]
pub struct TriFace {
    pub a: TriVertex,
    pub b: TriVertex,
    pub c: TriVertex,
}

/// Part `i` of a vertex is absent or empty, or holds an index.
pub open spec fn optional_part_ok(parts: Seq<Seq<char>>, i: int) -> bool {
    i >= parts.len() || parts[i].len() == 0 || usize_text_ok(parts[i])
}

/// The index that optional part `i` of a vertex holds.
pub open spec fn optional_part_value(parts: Seq<Seq<char>>, i: int) -> Option<usize> {
    if i >= parts.len() || parts[i].len() == 0 {
        None
    } else {
        Some(usize_text_value(parts[i]) as usize)
    }
}

/// Every part of the vertex text `s` that is read holds a valid index.
pub open spec fn vertex_parts_ok(s: Seq<char>) -> bool {
    let parts = split(s, Separator::Char('/'));
    &&& usize_text_ok(parts[0])
    &&& optional_part_ok(parts, 1)
    &&& optional_part_ok(parts, 2)
}

/// `s` is the text of a face vertex: `v`, `v/vt`, `v//vn` or `v/vt/vn`, where
/// the texture and normal indices may be left empty.
pub open spec fn vertex_text_ok(s: Seq<char>) -> bool {
    vertex_parts_ok(s) && split(s, Separator::Char('/')).len() <= 3
}

/// The vertex that such a text describes.
pub open spec fn vertex_text_value(s: Seq<char>) -> TriVertex {
    let parts = split(s, Separator::Char('/'));
    TriVertex {
        vertex_index: usize_text_value(parts[0]) as usize,
        uv_index: optional_part_value(parts, 1),
        normal_index: optional_part_value(parts, 2),
    }
}

fn parse_optional_part(parts: &Vec<Vec<char>>, i: usize) -> (r: Result<Option<usize>, ParseIntError>)
    ensures
        r is Ok <==> optional_part_ok(views(parts@), i as int),
        r matches Ok(v) ==> v == optional_part_value(views(parts@), i as int),
{
    if i >= parts.len() {
        return Ok(None);
    }
    if parts[i].len() == 0 {
        return Ok(None);
    }
    let text = chars_to_string(parts[i].as_slice());
    match parse_usize(text.as_str()) {
        Ok(v) => Ok(Some(v)),
        Err(e) => Err(e),
    }
}

impl TriVertex {
    /// Reads a face vertex of the form `v/vt?/vn?`.
    pub fn from_str(s: &str) -> (r: Result<TriVertex, VertexParseError>)
        ensures
            r is Ok <==> vertex_text_ok(s@),
            r matches Ok(v) ==> v == vertex_text_value(s@),
            r matches Err(VertexParseError::UnexpectedPartCount) <==> vertex_parts_ok(s@) && split(
                s@,
                Separator::Char('/'),
            ).len() > 3,
    {
        let chars = str_chars(s);
        let parts = split_chars(chars.as_slice(), Separator::Char('/'));
        proof {
            crate::text::lemma_split_nonempty(s@, Separator::Char('/'));
        }
        let first = chars_to_string(parts[0].as_slice());
        let vertex_index = match parse_usize(first.as_str()) {
            Ok(v) => v,
            Err(e) => return Err(VertexParseError::ParseIntError(e)),
        };
        let uv_index = match parse_optional_part(&parts, 1) {
            Ok(v) => v,
            Err(e) => return Err(VertexParseError::ParseIntError(e)),
        };
        let normal_index = match parse_optional_part(&parts, 2) {
            Ok(v) => v,
            Err(e) => return Err(VertexParseError::ParseIntError(e)),
        };
        if parts.len() > 3 {
            return Err(VertexParseError::UnexpectedPartCount);
        }
        Ok(TriVertex { vertex_index, uv_index, normal_index })
    }
}

/// The white-space separated pieces of `line` are exactly three face vertices.
pub open spec fn face_text_ok(line: Seq<char>) -> bool {
    let pieces = split(line, Separator::Whitespace);
    &&& pieces.len() == 3
    &&& forall|i: int| 0 <= i < 3 ==> vertex_text_ok(#[trigger] pieces[i])
}

/// Reads exactly three white-space separated face vertices.
pub fn try_parse_elements(line: &str) -> (r: Option<[TriVertex; 3]>)
    ensures
        r is Some <==> face_text_ok(line@),
        r matches Some(vs) ==> forall|i: int|
            0 <= i < 3 ==> #[trigger] vs@[i] == vertex_text_value(split(line@, Separator::Whitespace)[i]),
{
    let chars = str_chars(line);
    let pieces = split_chars(chars.as_slice(), Separator::Whitespace);
    if pieces.len() != 3 {
        return None;
    }
    let ghost ps = views(pieces@);
    let t0 = chars_to_string(pieces[0].as_slice());
    let a = match TriVertex::from_str(t0.as_str()) {
        Ok(v) => v,
        Err(_) => {
            assert(ps[0] == pieces@[0]@);
            assert(!vertex_text_ok(ps[0]));
            return None;
        },
    };
    let t1 = chars_to_string(pieces[1].as_slice());
    let b = match TriVertex::from_str(t1.as_str()) {
        Ok(v) => v,
        Err(_) => {
            assert(ps[1] == pieces@[1]@);
            assert(!vertex_text_ok(ps[1]));
            return None;
        },
    };
    let t2 = chars_to_string(pieces[2].as_slice());
    let c = match TriVertex::from_str(t2.as_str()) {
        Ok(v) => v,
        Err(_) => {
            assert(!vertex_text_ok(ps[2]));
            return None;
        },
    };
    let vs = [a, b, c];
    proof {
        assert(ps[0] == pieces@[0]@ && ps[1] == pieces@[1]@ && ps[2] == pieces@[2]@);
        assert forall|i: int| 0 <= i < 3 implies vertex_text_ok(#[trigger] ps[i]) by {
            if i == 0 {} else if i == 1 {} else {}
        }
        assert(vs@ == seq![a, b, c]);
    }
    Some(vs)
}

/// An object of an OBJ file: its vertices and texture coordinates (each as
/// the texts of its numbers) and its faces.
pub struct ObjObject {
    pub vertices: Vec<[String; 3]>,
    pub uv: Vec<[String; 2]>,
    pub faces: Vec<TriFace>,
}

/// What an object holds.
pub struct ObjObjectModel {
    pub vertices: Seq<Seq<Seq<char>>>,
    pub uv: Seq<Seq<Seq<char>>>,
    pub faces: Seq<TriFace>,
}

/// The texts of a list of vertices.
pub open spec fn vertex_texts(v: Seq<[String; 3]>) -> Seq<Seq<Seq<char>>> {
    v.map_values(|c: [String; 3]| texts(c@))
}

/// The texts of a list of texture coordinates.
pub open spec fn uv_texts(v: Seq<[String; 2]>) -> Seq<Seq<Seq<char>>> {
    v.map_values(|c: [String; 2]| texts(c@))
}

impl View for ObjObject {
    type V = ObjObjectModel;

    open spec fn view(&self) -> ObjObjectModel {
        ObjObjectModel { vertices: vertex_texts(self.vertices@), uv: uv_texts(self.uv@), faces: self.faces@ }
    }
}

/// The named objects of an OBJ file.
pub struct ObjFile {
    objects: Vec<(String, ObjObject)>,
}

/// The views of named objects.
pub open spec fn named_views(v: Seq<(String, ObjObject)>) -> Seq<(Seq<char>, ObjObjectModel)> {
    v.map_values(|o: (String, ObjObject)| (o.0@, o.1@))
}

impl View for ObjFile {
    type V = Seq<(Seq<char>, ObjObjectModel)>;

    /// The objects, each under its own name, in the order their names first came.
    closed spec fn view(&self) -> Seq<(Seq<char>, ObjObjectModel)> {
        named_views(self.objects@)
    }
}

/// The names of named objects.
pub open spec fn object_names(objects: Seq<(Seq<char>, ObjObjectModel)>) -> Seq<Seq<char>> {
    objects.map_values(|o: (Seq<char>, ObjObjectModel)| o.0)
}

/// The position of `name` among names that hold it once.
pub open spec fn slot_of(names: Seq<Seq<char>>, name: Seq<char>) -> int {
    choose|k: int| 0 <= k < names.len() && names[k] == name
}

/// The objects with `object` stored under `name`: it replaces an object of
/// that name, or else comes last.
pub open spec fn insert_named(
    objects: Seq<(Seq<char>, ObjObjectModel)>,
    name: Seq<char>,
    object: ObjObjectModel,
) -> Seq<(Seq<char>, ObjObjectModel)> {
    let names = object_names(objects);
    if names.contains(name) {
        objects.update(slot_of(names, name), (name, object))
    } else {
        objects.push((name, object))
    }
}

/// The state of a reader between two lines: the objects stored, the name of
/// the current object, and what was read since it was named.
pub struct ObjectsReadModel {
    pub objects: Seq<(Seq<char>, ObjObjectModel)>,
    pub name: Option<Seq<char>>,
    pub vertices: Seq<Seq<Seq<char>>>,
    pub uv: Seq<Seq<Seq<char>>>,
    pub faces: Seq<TriFace>,
}

/// What the reader has read since the current object was named.
pub open spec fn current_object(st: ObjectsReadModel) -> ObjObjectModel {
    ObjObjectModel { vertices: st.vertices, uv: st.uv, faces: st.faces }
}

/// The objects with the current one stored under its name, if it has one.
pub open spec fn store_named(st: ObjectsReadModel) -> Seq<(Seq<char>, ObjObjectModel)> {
    match st.name {
        Some(n) => insert_named(st.objects, n, current_object(st)),
        None => st.objects,
    }
}

/// The directive of a trimmed line: its text up to the first space.
pub open spec fn directive(line: Seq<char>) -> Seq<char> {
    split(line, Separator::Char(' '))[0]
}

/// A `v` or `f` line has data after its directive, a `vt` line too.
pub open spec fn objects_line_ok(raw: Seq<char>) -> bool {
    let line = trim(raw);
    let d = directive(line);
    &&& (d == "v"@ || d == "f"@) ==> line.len() >= 2
    &&& d == "vt"@ ==> line.len() >= 3
}

/// The message of a line that failed: `what` and the line's (0-based) number.
pub open spec fn failed_line(what: Seq<char>, line_no: nat) -> Seq<char> {
    what + decimal(line_no)
}

/// The face of three face vertices.
pub open spec fn face_value(data: Seq<char>) -> TriFace {
    let pieces = split(data, Separator::Whitespace);
    TriFace {
        a: vertex_text_value(pieces[0]),
        b: vertex_text_value(pieces[1]),
        c: vertex_text_value(pieces[2]),
    }
}

/// What reading line `line_no` does: a comment, a line of another directive
/// and `vn` are skipped; `o` names the current object with the rest of the
/// line, trimmed, after storing the object named before and starting anew if
/// there is one (what came before the first name joins the first object); `v` and `vt` add three or two numbers,
/// `f` a face of three face vertices, and fail where the data is otherwise.
pub open spec fn objects_step(st: ObjectsReadModel, raw: Seq<char>, line_no: nat) -> Result<ObjectsReadModel, Seq<char>> {
    let line = trim(raw);
    let d = directive(line);
    if line.len() > 0 && line[0] == '#' {
        Ok(st)
    } else if d == "o"@ {
        match st.name {
            Some(_) => Ok(
                ObjectsReadModel {
                    objects: store_named(st),
                    name: Some(trim(line.skip(1))),
                    vertices: seq![],
                    uv: seq![],
                    faces: seq![],
                },
            ),
            None => Ok(ObjectsReadModel { name: Some(trim(line.skip(1))), ..st }),
        }
    } else if d == "v"@ {
        if numbers_ok(line.skip(2), 3) {
            Ok(ObjectsReadModel { vertices: st.vertices.push(split(line.skip(2), Separator::Whitespace)), ..st })
        } else {
            Err(failed_line("Unable to parse vertex on line: "@, line_no))
        }
    } else if d == "vt"@ {
        if numbers_ok(line.skip(3), 2) {
            Ok(ObjectsReadModel { uv: st.uv.push(split(line.skip(3), Separator::Whitespace)), ..st })
        } else {
            Err(failed_line("Unable to parse texture vertex on line: "@, line_no))
        }
    } else if d == "f"@ {
        if face_text_ok(line.skip(2)) {
            Ok(ObjectsReadModel { faces: st.faces.push(face_value(line.skip(2))), ..st })
        } else {
            Err(failed_line("Unable to parse face on line: "@, line_no))
        }
    } else {
        Ok(st)
    }
}

/// The state after the first `n` lines, or the message of the first that failed.
pub open spec fn objects_read(lines: Seq<Seq<char>>, n: nat) -> Result<ObjectsReadModel, Seq<char>>
    decreases n,
{
    if n == 0 {
        Ok(ObjectsReadModel { objects: seq![], name: None, vertices: seq![], uv: seq![], faces: seq![] })
    } else {
        match objects_read(lines, (n - 1) as nat) {
            Ok(st) => objects_step(st, lines[n - 1], (n - 1) as nat),
            Err(m) => Err(m),
        }
    }
}

/// Once a line failed, later lines keep its message.
pub proof fn lemma_objects_failure_stays(lines: Seq<Seq<char>>, k: nat, n: nat)
    requires
        k <= n,
        objects_read(lines, k) is Err,
    ensures
        objects_read(lines, n) == objects_read(lines, k),
    decreases n,
{
    if n > k {
        lemma_objects_failure_stays(lines, k, (n - 1) as nat);
    }
}

/// What reading the text of an OBJ file gives: its objects (the last one
/// under the name "default" where no `o` line named it), or the message of the
/// first line that failed.
pub open spec fn objects_result(text: Seq<char>) -> Result<Seq<(Seq<char>, ObjObjectModel)>, Seq<char>> {
    let lines = text_lines(text);
    match objects_read(lines, lines.len()) {
        Ok(st) => Ok(
            insert_named(
                st.objects,
                match st.name {
                    Some(n) => n,
                    None => "default"@,
                },
                current_object(st),
            ),
        ),
        Err(m) => Err(m),
    }
}

struct ObjectsReader {
    objects: Vec<(String, ObjObject)>,
    name: Option<String>,
    vertices: Vec<[String; 3]>,
    uv: Vec<[String; 2]>,
    faces: Vec<TriFace>,
}

impl View for ObjectsReader {
    type V = ObjectsReadModel;

    closed spec fn view(&self) -> ObjectsReadModel {
        ObjectsReadModel {
            objects: named_views(self.objects@),
            name: match self.name {
                Some(s) => Some(s@),
                None => None,
            },
            vertices: vertex_texts(self.vertices@),
            uv: uv_texts(self.uv@),
            faces: self.faces@,
        }
    }
}

/// Stores `object` under `name` in `objects`, whose names come once each.
fn store_object(objects: &mut Vec<(String, ObjObject)>, name: String, object: ObjObject)
    requires
        object_names(named_views(old(objects)@)).no_duplicates(),
    ensures
        named_views(final(objects)@) == insert_named(named_views(old(objects)@), name@, object@),
        object_names(named_views(final(objects)@)).no_duplicates(),
{
    let ghost before = named_views(objects@);
    let ghost names = object_names(before);
    let mut i: usize = 0;
    while i < objects.len()
        invariant
            i <= objects@.len(),
            before == named_views(objects@),
            objects@ == old(objects)@,
            names == object_names(before),
            names.no_duplicates(),
            forall|k: int| 0 <= k < i ==> names[k] != name@,
        decreases objects@.len() - i,
    {
        assert(names[i as int] == objects@[i as int].0@);
        if chars_equal_string(&objects[i].0, name.as_str()) {
            proof {
                assert(names.contains(name@));
                let k = slot_of(names, name@);
                assert(names[k] == name@);
                assert(k == i);
            }
            let ghost nv = (name@, object@);
            objects.set(i, (name, object));
            proof {
                assert(named_views(objects@) =~= before.update(i as int, nv));
                assert(insert_named(before, name@, object@) == before.update(i as int, nv));
                assert(object_names(named_views(objects@)) =~= names);
            }
            return;
        }
        i += 1;
    }
    assert(!names.contains(name@));
    let ghost nv = (name@, object@);
    objects.push((name, object));
    proof {
        let f = |o: (String, ObjObject)| (o.0@, o.1@);
        assert(objects@.map_values(f) =~= before.push(nv));
        assert(object_names(named_views(objects@)) =~= names.push(name@));
    }
}

/// The characters of `line` from position `start` on.
fn chars_from(line: &[char], start: usize) -> (r: Vec<char>)
    requires
        start <= line@.len(),
    ensures
        r@ == line@.skip(start as int),
{
    let mut r: Vec<char> = Vec::new();
    let mut i: usize = start;
    while i < line.len()
        invariant
            start <= i <= line@.len(),
            r@ == line@.subrange(start as int, i as int),
        decreases line@.len() - i,
    {
        r.push(line[i]);
        assert(line@.subrange(start as int, i + 1) =~= line@.subrange(start as int, i as int).push(line@[i as int]));
        i += 1;
    }
    assert(r@ =~= line@.skip(start as int));
    r
}

/// The message of line `line_no` that failed.
fn failed_line_message(what: &str, line_no: usize) -> (m: String)
    ensures
        m@ == failed_line(what@, line_no as nat),
{
    let mut m = String::new();
    push_str(&mut m, what);
    push_decimal(&mut m, line_no as u64);
    m
}

impl ObjectsReader {
    /// Stores the current object under its name, which it has, and starts a new one.
    fn store_current(&mut self)
        requires
            object_names(old(self)@.objects).no_duplicates(),
            old(self)@.name is Some,
        ensures
            final(self)@.objects == store_named(old(self)@),
            object_names(final(self)@.objects).no_duplicates(),
            final(self)@.vertices == Seq::<Seq<Seq<char>>>::empty(),
            final(self)@.uv == Seq::<Seq<Seq<char>>>::empty(),
            final(self)@.faces == Seq::<TriFace>::empty(),
            final(self)@.name == old(self)@.name,
    {
        let mut vertices: Vec<[String; 3]> = Vec::new();
        let mut uv: Vec<[String; 2]> = Vec::new();
        let mut faces: Vec<TriFace> = Vec::new();
        std::mem::swap(&mut vertices, &mut self.vertices);
        std::mem::swap(&mut uv, &mut self.uv);
        std::mem::swap(&mut faces, &mut self.faces);
        let object = ObjObject { vertices, uv, faces };
        match &self.name {
            Some(n) => {
                let name = n.clone();
                store_object(&mut self.objects, name, object);
            },
            None => {},
        }
        proof {
            assert(self@.vertices =~= Seq::<Seq<Seq<char>>>::empty());
            assert(self@.uv =~= Seq::<Seq<Seq<char>>>::empty());
        }
    }

    fn read_line(&mut self, raw: &[char], line_no: usize) -> (r: Result<(), String>)
        requires
            objects_line_ok(raw@),
            object_names(old(self)@.objects).no_duplicates(),
        ensures
            match objects_step(old(self)@, raw@, line_no as nat) {
                Ok(st) => r is Ok && final(self)@ == st,
                Err(m) => r matches Err(e) && e@ == m,
            },
            object_names(final(self)@.objects).no_duplicates(),
    {
        let line = trim_chars(raw);
        if line.len() > 0 && line[0] == '#' {
            return Ok(());
        }
        let pieces = split_chars(line.as_slice(), Separator::Char(' '));
        proof {
            crate::text::lemma_split_nonempty(line@, Separator::Char(' '));
            assert(pieces@[0]@ == directive(line@));
        }
        let d = pieces[0].as_slice();
        if chars_equal(d, "o") {
            proof {
                reveal_strlit("o");
                if line@.len() == 0 {
                    assert(split(line@, Separator::Char(' ')) =~= seq![Seq::<char>::empty()]);
                }
            }
            if self.name.is_some() {
                self.store_current();
            }
            let rest = chars_from(line.as_slice(), 1);
            self.name = Some(trimmed_string(rest.as_slice()));
            Ok(())
        } else if chars_equal(d, "v") {
            let data = chars_from(line.as_slice(), 2);
            match try_parse_numbers(data.as_slice(), 3) {
                Some(v) => {
                    let ghost before = self.vertices@;
                    let c = [v[0].clone(), v[1].clone(), v[2].clone()];
                    assert(texts(c@) =~= texts(v@));
                    self.vertices.push(c);
                    assert(vertex_texts(self.vertices@) =~= vertex_texts(before).push(texts(c@)));
                    Ok(())
                },
                None => Err(failed_line_message("Unable to parse vertex on line: ", line_no)),
            }
        } else if chars_equal(d, "vt") {
            let data = chars_from(line.as_slice(), 3);
            match try_parse_numbers(data.as_slice(), 2) {
                Some(v) => {
                    let ghost before = self.uv@;
                    let c = [v[0].clone(), v[1].clone()];
                    assert(texts(c@) =~= texts(v@));
                    self.uv.push(c);
                    assert(uv_texts(self.uv@) =~= uv_texts(before).push(texts(c@)));
                    Ok(())
                },
                None => Err(failed_line_message("Unable to parse texture vertex on line: ", line_no)),
            }
        } else if chars_equal(d, "f") {
            let data = chars_from(line.as_slice(), 2);
            let text = chars_to_string(data.as_slice());
            match try_parse_elements(text.as_str()) {
                Some(vs) => {
                    let face = TriFace { a: vs[0], b: vs[1], c: vs[2] };
                    assert(face == face_value(data@));
                    self.faces.push(face);
                    Ok(())
                },
                None => Err(failed_line_message("Unable to parse face on line: ", line_no)),
            }
        } else {
            Ok(())
        }
    }
}

/// Reads the text of an OBJ file: its `o`, `v`, `vt` and `f` directives.
/// Vertices, texture coordinates and faces belong to the object named last
/// before them, those before the first name to the first named object (or,
/// where no `o` line comes at all, to the object "default"); an object
/// replaces an earlier one of the same name. Fails at the first `v`, `vt` or
/// `f` line whose data is not three numbers, two numbers or three face
/// vertices, with a message that names the line.
pub fn parse_obj_file(text: &str) -> (r: Result<ObjFile, ObjError>)
    requires
        forall|i: int| 0 <= i < text_lines(text@).len() ==> objects_line_ok(#[trigger] text_lines(text@)[i]),
    ensures
        match objects_result(text@) {
            Ok(objects) => r matches Ok(f) && f@ == objects && object_names(f@).no_duplicates(),
            Err(m) => r matches Err(e) && e matches ObjError::General(g) && g@ == m,
        },
{
    let lines = lines_of(text);
    let ghost ls = text_lines(text@);
    let mut reader = ObjectsReader {
        objects: Vec::new(),
        name: None,
        vertices: Vec::new(),
        uv: Vec::new(),
        faces: Vec::new(),
    };
    proof {
        assert(reader@.objects =~= seq![]);
        assert(reader@.vertices =~= seq![]);
        assert(reader@.uv =~= seq![]);
        assert(object_names(reader@.objects) =~= seq![]);
    }
    let mut i: usize = 0;
    while i < lines.len()
        invariant
            i <= lines@.len(),
            views(lines@) == ls,
            ls == text_lines(text@),
            forall|k: int| 0 <= k < ls.len() ==> objects_line_ok(#[trigger] ls[k]),
            objects_read(ls, i as nat) == Ok::<ObjectsReadModel, Seq<char>>(reader@),
            object_names(reader@.objects).no_duplicates(),
        decreases lines@.len() - i,
    {
        assert(ls[i as int] == lines@[i as int]@);
        match reader.read_line(lines[i].as_slice(), i) {
            Ok(()) => {},
            Err(m) => {
                proof {
                    lemma_objects_failure_stays(ls, (i + 1) as nat, ls.len());
                }
                return Err(ObjError::General(m));
            },
        }
        i += 1;
    }
    let last_name = match &reader.name {
        Some(n) => n.clone(),
        None => {
            let mut d = String::new();
            push_str(&mut d, "default");
            d
        },
    };
    let ghost st = reader@;
    let object = ObjObject {
        vertices: reader.vertices,
        uv: reader.uv,
        faces: reader.faces,
    };
    let mut objects = reader.objects;
    store_object(&mut objects, last_name, object);
    Ok(ObjFile { objects })
}

impl ObjFile {
    /// Reads an OBJ file's text (see `parse_obj_file`).
    pub fn read_from_string(s: &str) -> (r: Result<Self, ObjError>)
        requires
            forall|i: int| 0 <= i < text_lines(s@).len() ==> objects_line_ok(#[trigger] text_lines(s@)[i]),
        ensures
            match objects_result(s@) {
                Ok(objects) => r matches Ok(f) && f@ == objects && object_names(f@).no_duplicates(),
                Err(m) => r matches Err(e) && e matches ObjError::General(g) && g@ == m,
            },
    {
        parse_obj_file(s)
    }

    /// The object of the given name, if the file has one.
    pub(crate) fn find_object(&self, name: &str) -> (o: Option<&ObjObject>)
        requires
            object_names(self@).no_duplicates(),
        ensures
            o is None <==> !object_names(self@).contains(name@),
            o matches Some(x) ==> (name@, x@) == self@[slot_of(object_names(self@), name@)],
    {
        let ghost names = object_names(self@);
        let mut i: usize = 0;
        while i < self.objects.len()
            invariant
                i <= self.objects@.len(),
                names == object_names(self@),
                names.no_duplicates(),
                forall|k: int| 0 <= k < i ==> names[k] != name@,
            decreases self.objects@.len() - i,
        {
            assert(names[i as int] == self.objects@[i as int].0@);
            if chars_equal_string(&self.objects[i].0, name) {
                proof {
                    let k = slot_of(names, name@);
                    assert(names[k] == name@);
                    assert(k == i);
                }
                return Some(&self.objects[i].1);
            }
            i += 1;
        }
        None
    }

    /// The object of the given name, which the file must have.
    pub fn get_object(&self, name: &str) -> (o: &ObjObject)
        requires
            object_names(self@).contains(name@),
            object_names(self@).no_duplicates(),
        ensures
            (name@, o@) == self@[slot_of(object_names(self@), name@)],
    {
        let ghost names = object_names(self@);
        let mut i: usize = 0;
        while i < self.objects.len()
            invariant
                i <= self.objects@.len(),
                names == object_names(self@),
                names.contains(name@),
                names.no_duplicates(),
                forall|k: int| 0 <= k < i ==> names[k] != name@,
            decreases self.objects@.len() - i,
        {
            assert(names[i as int] == self.objects@[i as int].0@);
            if chars_equal_string(&self.objects[i].0, name) {
                proof {
                    let k = slot_of(names, name@);
                    assert(names[k] == name@);
                    assert(k == i);
                }
                return &self.objects[i].1;
            }
            i += 1;
        }
        proof {
            let k = choose|k: int| 0 <= k < names.len() && names[k] == name@;
        }
        &self.objects[0].1
    }
}

/// `a` and `b` hold the same characters.
fn chars_equal_string(a: &String, b: &str) -> (r: bool)
    ensures
        r == (a@ == b@),
{
    let ac = str_chars(a.as_str());
    chars_equal(ac.as_slice(), b)
}

} // verus!
