use vstd::prelude::*;

use crate::float_text::{float_text_ok, is_float_str};
use crate::int_text::{parse_usize, usize_text_ok, usize_text_value};
use crate::obj_file::{lines_of, text_lines, texts};
use crate::text::{Separator, chars_to_string, split, split_chars, str_chars, trim, trim_chars, views};

verus! {

/// Why an OBJ file could not be read.
#[derive(Debug)]
pub enum ObjParseError {
    ParserError(&'static str),
    IoError(std::io::Error),
}

/// A triangular face: three 1-based vertex indices.
#[derive(Debug, Clone, Copy, PartialEq, Eq, Structural)]
pub struct ObjFace(usize, usize, usize);

impl View for ObjFace {
    type V = (usize, usize, usize);

    closed spec fn view(&self) -> (usize, usize, usize) {
        (self.0, self.1, self.2)
    }
}

/// `line` is exactly three white-space separated unsigned integers.
pub open spec fn triple_text_ok(line: Seq<char>) -> bool {
    let pieces = split(line, Separator::Whitespace);
    &&& pieces.len() == 3
    &&& forall|i: int| 0 <= i < 3 ==> usize_text_ok(#[trigger] pieces[i])
}

/// The three numbers of such a line.
pub open spec fn triple_text_value(line: Seq<char>) -> (usize, usize, usize) {
    let pieces = split(line, Separator::Whitespace);
    (
        usize_text_value(pieces[0]) as usize,
        usize_text_value(pieces[1]) as usize,
        usize_text_value(pieces[2]) as usize,
    )
}

/// Reads exactly three white-space separated unsigned integers.
pub fn parse_triple(line: &str) -> (r: Result<(usize, usize, usize), ObjParseError>)
    ensures
        r is Ok <==> triple_text_ok(line@),
        r matches Ok(t) ==> t == triple_text_value(line@),
        r matches Err(e) ==> e matches ObjParseError::ParserError(m) && m@ == "expected triple"@,
{
    let chars = str_chars(line);
    let pieces = split_chars(chars.as_slice(), Separator::Whitespace);
    let ghost ps = views(pieces@);
    proof {
        crate::text::lemma_split_nonempty(line@, Separator::Whitespace);
    }
    let mut values: Vec<usize> = Vec::new();
    let mut i: usize = 0;
    while i < 3
        invariant
            i <= 3,
            ps == views(pieces@),
            ps == split(line@, Separator::Whitespace),
            ps.len() >= 1,
            values@.len() == i,
            i <= ps.len(),
            forall|k: int| 0 <= k < i ==> usize_text_ok(#[trigger] ps[k]),
            forall|k: int| 0 <= k < i ==> values@[k] == usize_text_value(#[trigger] ps[k]),
        decreases 3 - i,
    {
        if i >= pieces.len() {
            return Err(ObjParseError::ParserError("expected triple"));
        }
        assert(ps[i as int] == pieces@[i as int]@);
        let text = chars_to_string(pieces[i].as_slice());
        match parse_usize(text.as_str()) {
            Ok(n) => values.push(n),
            Err(_) => return Err(ObjParseError::ParserError("expected triple")),
        }
        i += 1;
    }
    if pieces.len() > 3 {
        return Err(ObjParseError::ParserError("expected triple"));
    }
    Ok((values[0], values[1], values[2]))
}

/// `line` is exactly three white-space separated numbers.
pub open spec fn float_triple_ok(line: Seq<char>) -> bool {
    let pieces = split(line, Separator::Whitespace);
    &&& pieces.len() == 3
    &&& forall|i: int| 0 <= i < 3 ==> float_text_ok(#[trigger] pieces[i])
}

/// Reads exactly three white-space separated numbers, as their texts.
pub fn parse_float_triple(line: &str) -> (r: Result<[String; 3], ObjParseError>)
    ensures
        r is Ok <==> float_triple_ok(line@),
        r matches Ok(t) ==> texts(t@) == split(line@, Separator::Whitespace),
        r matches Err(e) ==> e matches ObjParseError::ParserError(m) && m@ == "expected triple"@,
{
    let pieces = crate::text::split_whitespace_pieces(line);
    if pieces.len() != 3 {
        return Err(ObjParseError::ParserError("expected triple"));
    }
    if !is_float_str(pieces[0].as_str()) || !is_float_str(pieces[1].as_str()) || !is_float_str(pieces[2].as_str()) {
        proof {
            assert(!float_triple_ok(line@));
        }
        return Err(ObjParseError::ParserError("expected triple"));
    }
    let t = [pieces[0].clone(), pieces[1].clone(), pieces[2].clone()];
    proof {
        assert forall|i: int| 0 <= i < 3 implies float_text_ok(#[trigger] split(line@, Separator::Whitespace)[i]) by {
            assert(split(line@, Separator::Whitespace)[i] == pieces@[i]@);
        }
        assert(texts(t@) =~= split(line@, Separator::Whitespace));
    }
    Ok(t)
}

/// The vertices (texts of their three components) and faces of an object.
pub struct ObjObject {
    vertices: Vec<[String; 3]>,
    faces: Vec<ObjFace>,
}

/// What an object holds.
pub struct ObjObjectModel {
    pub vertices: Seq<Seq<Seq<char>>>,
    pub faces: Seq<(usize, usize, usize)>,
}

impl View for ObjObject {
    type V = ObjObjectModel;

    closed spec fn view(&self) -> ObjObjectModel {
        ObjObjectModel {
            vertices: self.vertices@.map_values(|v: [String; 3]| texts(v@)),
            faces: self.faces@.map_values(|f: ObjFace| f@),
        }
    }
}

/// The named objects of an OBJ file.
pub struct ObjFile {
    objects: Vec<(String, ObjObject)>,
}

impl View for ObjFile {
    type V = Seq<(Seq<char>, ObjObjectModel)>;

    /// The objects in the order they were first named (a name is kept for the
    /// first object that has it).
    closed spec fn view(&self) -> Seq<(Seq<char>, ObjObjectModel)> {
        self.objects@.map_values(|o: (String, ObjObject)| (o.0@, o.1@))
    }
}

/// The state of a reader between two lines: the objects so far, the current
/// object's name, and the vertices and faces read since it was named.
pub struct WavefrontModel {
    pub objects: Seq<(Seq<char>, ObjObjectModel)>,
    pub current: Option<Seq<char>>,
    pub vertices: Seq<Seq<Seq<char>>>,
    pub faces: Seq<(usize, usize, usize)>,
}

/// The names of a list of objects.
pub open spec fn object_names(objects: Seq<(Seq<char>, ObjObjectModel)>) -> Seq<Seq<char>> {
    objects.map_values(|o: (Seq<char>, ObjObjectModel)| o.0)
}

/// The current object is stored under its name unless an object of that name
/// is already stored; its vertices and faces start over either way.
pub open spec fn store_current(st: WavefrontModel) -> WavefrontModel {
    match st.current {
        None => st,
        Some(name) => WavefrontModel {
            objects: if object_names(st.objects).contains(name) {
                st.objects
            } else {
                st.objects.push((name, ObjObjectModel { vertices: st.vertices, faces: st.faces }))
            },
            current: None,
            vertices: seq![],
            faces: seq![],
        },
    }
}

/// A line whose trimmed text starts with `o`, `v` or `f` has a second
/// character, of one byte: what follows it is the line's data.
pub open spec fn wavefront_line_ok(raw: Seq<char>) -> bool {
    let line = trim(raw);
    line.len() > 0 && (line[0] == 'o' || line[0] == 'v' || line[0] == 'f') ==> line.len() >= 2 && (line[1] as u32) < 128
}

/// What reading a line does: a comment or a line of another directive is
/// skipped; `o` stores the current object and names the next one with the
/// line's data; `v` and `f` add a vertex or a face, whose data must be three
/// numbers or three indices.
pub open spec fn wavefront_step(st: WavefrontModel, raw: Seq<char>) -> Option<WavefrontModel> {
    let line = trim(raw);
    let data = line.skip(2);
    if line.len() == 0 || line[0] == '#' {
        Some(st)
    } else if line[0] == 'o' {
        Some(WavefrontModel { current: Some(data), ..store_current(st) })
    } else if line[0] == 'v' {
        if float_triple_ok(data) {
            Some(WavefrontModel { vertices: st.vertices.push(split(data, Separator::Whitespace)), ..st })
        } else {
            None
        }
    } else if line[0] == 'f' {
        if triple_text_ok(data) {
            Some(WavefrontModel { faces: st.faces.push(triple_text_value(data)), ..st })
        } else {
            None
        }
    } else {
        Some(st)
    }
}

/// The state after the first `n` lines, if none of them failed.
pub open spec fn wavefront_read(lines: Seq<Seq<char>>, n: nat) -> Option<WavefrontModel>
    decreases n,
{
    if n == 0 {
        Some(WavefrontModel { objects: seq![], current: None, vertices: seq![], faces: seq![] })
    } else {
        match wavefront_read(lines, (n - 1) as nat) {
            Some(st) => wavefront_step(st, lines[n - 1]),
            None => None,
        }
    }
}

/// Once a line failed, no later line changes the outcome.
pub proof fn lemma_wavefront_failure_stays(lines: Seq<Seq<char>>, k: nat, n: nat)
    requires
        k <= n,
        wavefront_read(lines, k) is None,
    ensures
        wavefront_read(lines, n) is None,
    decreases n,
{
    if n > k {
        lemma_wavefront_failure_stays(lines, k, (n - 1) as nat);
    }
}

struct WavefrontReader {
    objects: Vec<(String, ObjObject)>,
    current: Option<String>,
    vertices: Vec<[String; 3]>,
    faces: Vec<ObjFace>,
}

impl View for WavefrontReader {
    type V = WavefrontModel;

    closed spec fn view(&self) -> WavefrontModel {
        WavefrontModel {
            objects: self.objects@.map_values(|o: (String, ObjObject)| (o.0@, o.1@)),
            current: match self.current {
                Some(s) => Some(s@),
                None => None,
            },
            vertices: self.vertices@.map_values(|v: [String; 3]| texts(v@)),
            faces: self.faces@.map_values(|f: ObjFace| f@),
        }
    }
}

impl WavefrontReader {
    fn has_object(&self, name: &String) -> (b: bool)
        ensures
            b == object_names(self@.objects).contains(name@),
    {
        let ghost names = object_names(self@.objects);
        let mut i: usize = 0;
        while i < self.objects.len()
            invariant
                i <= self.objects@.len(),
                names == object_names(self@.objects),
                forall|k: int| 0 <= k < i ==> names[k] != name@,
            decreases self.objects@.len() - i,
        {
            assert(names[i as int] == self.objects@[i as int].0@);
            if self.objects[i].0 == *name {
                return true;
            }
            i += 1;
        }
        false
    }

    fn store_current(&mut self)
        ensures
            final(self)@ == store_current(old(self)@),
    {
        let name = match self.current.take() {
            None => {
                return;
            },
            Some(n) => n,
        };
        let mut vertices: Vec<[String; 3]> = Vec::new();
        let mut faces: Vec<ObjFace> = Vec::new();
        std::mem::swap(&mut vertices, &mut self.vertices);
        std::mem::swap(&mut faces, &mut self.faces);
        if !self.has_object(&name) {
            let ghost before = self.objects@;
            let object = ObjObject { vertices, faces };
            self.objects.push((name, object));
            proof {
                let f = |o: (String, ObjObject)| (o.0@, o.1@);
                assert(self.objects@.map_values(f) =~= before.map_values(f).push((name@, object@)));
            }
        }
        proof {
            assert(self@.vertices =~= seq![]);
            assert(self@.faces =~= seq![]);
        }
    }

    fn read_line(&mut self, raw: &[char]) -> (ok: bool)
        requires
            wavefront_line_ok(raw@),
        ensures
            match wavefront_step(old(self)@, raw@) {
                Some(st) => ok && final(self)@ == st,
                None => !ok,
            },
    {
        let line = trim_chars(raw);
        if line.len() == 0 || line[0] == '#' {
            return true;
        }
        let first = line[0];
        if first != 'o' && first != 'v' && first != 'f' {
            return true;
        }
        let mut rest: Vec<char> = Vec::new();
        let mut i: usize = 2;
        while i < line.len()
            invariant
                2 <= i <= line@.len(),
                rest@ == line@.subrange(2, i as int),
            decreases line@.len() - i,
        {
            rest.push(line[i]);
            assert(line@.subrange(2, i + 1) =~= line@.subrange(2, i as int).push(line@[i as int]));
            i += 1;
        }
        assert(rest@ =~= line@.skip(2));
        let data = chars_to_string(rest.as_slice());
        if first == 'o' {
            self.store_current();
            self.current = Some(data);
            true
        } else if first == 'v' {
            match parse_float_triple(data.as_str()) {
                Ok(v) => {
                    let ghost before = self.vertices@;
                    self.vertices.push(v);
                    proof {
                        let f = |c: [String; 3]| texts(c@);
                        assert(self.vertices@.map_values(f) =~= before.map_values(f).push(texts(v@)));
                    }
                    true
                },
                Err(_) => false,
            }
        } else {
            match parse_triple(data.as_str()) {
                Ok((a, b, c)) => {
                    let ghost before = self.faces@;
                    let face = ObjFace(a, b, c);
                    self.faces.push(face);
                    proof {
                        let f = |x: ObjFace| x@;
                        assert(self.faces@.map_values(f) =~= before.map_values(f).push(face@));
                    }
                    true
                },
                Err(_) => false,
            }
        }
    }
}

/// What reading the text of an OBJ file gives: its objects, or nothing where a
/// line failed.
pub open spec fn wavefront_result(text: Seq<char>) -> Option<Seq<(Seq<char>, ObjObjectModel)>> {
    let lines = text_lines(text);
    match wavefront_read(lines, lines.len()) {
        Some(st) => Some(store_current(st).objects),
        None => None,
    }
}

/// Reads the text of an OBJ file: its `o`, `v` and `f` directives. Vertices and
/// faces belong to the object named last before them (those before the first
/// name to the first object). Fails where the data of a `v` or `f` line is not
/// three numbers or three indices.
pub fn parse_obj_file(text: &str) -> (r: Result<ObjFile, ObjParseError>)
    requires
        forall|i: int| 0 <= i < text_lines(text@).len() ==> wavefront_line_ok(#[trigger] text_lines(text@)[i]),
    ensures
        match wavefront_result(text@) {
            Some(objects) => r matches Ok(f) && f@ == objects,
            None => r matches Err(e) && e matches ObjParseError::ParserError(m) && m@ == "expected triple"@,
        },
{
    let lines = lines_of(text);
    let ghost ls = text_lines(text@);
    let mut reader = WavefrontReader { objects: Vec::new(), current: None, vertices: Vec::new(), faces: Vec::new() };
    proof {
        assert(reader@.objects =~= seq![]);
        assert(reader@.vertices =~= seq![]);
        assert(reader@.faces =~= seq![]);
    }
    let mut i: usize = 0;
    while i < lines.len()
        invariant
            i <= lines@.len(),
            views(lines@) == ls,
            ls == text_lines(text@),
            forall|k: int| 0 <= k < ls.len() ==> wavefront_line_ok(#[trigger] ls[k]),
            wavefront_read(ls, i as nat) == Some(reader@),
        decreases lines@.len() - i,
    {
        assert(ls[i as int] == lines@[i as int]@);
        if !reader.read_line(lines[i].as_slice()) {
            proof {
                lemma_wavefront_failure_stays(ls, (i + 1) as nat, ls.len());
            }
            return Err(ObjParseError::ParserError("expected triple"));
        }
        i += 1;
    }
    reader.store_current();
    Ok(ObjFile { objects: reader.objects })
}

impl ObjFile {
    /// Reads an OBJ file's text (see `parse_obj_file`).
    pub fn read_from_string(s: &str) -> (r: Result<Self, ObjParseError>)
        requires
            forall|i: int| 0 <= i < text_lines(s@).len() ==> wavefront_line_ok(#[trigger] text_lines(s@)[i]),
        ensures
            match wavefront_result(s@) {
                Some(objects) => r matches Ok(f) && f@ == objects,
                None => r matches Err(e) && e matches ObjParseError::ParserError(m) && m@ == "expected triple"@,
            },
    {
        parse_obj_file(s)
    }
}

/// The object named `name` in a list of named objects, the first one of that name.
pub open spec fn find_object(objects: Seq<(Seq<char>, ObjObjectModel)>, name: Seq<char>) -> Option<ObjObjectModel>
    decreases objects.len(),
{
    if objects.len() == 0 {
        None
    } else if objects[0].0 == name {
        Some(objects[0].1)
    } else {
        find_object(objects.drop_first(), name)
    }
}

/// Every face of the object refers to vertices that it has (indices count from 1).
pub open spec fn faces_found(o: ObjObjectModel) -> bool {
    forall|k: int|
        0 <= k < o.faces.len() ==> {
            let f = #[trigger] o.faces[k];
            &&& 1 <= f.0 <= o.vertices.len()
            &&& 1 <= f.1 <= o.vertices.len()
            &&& 1 <= f.2 <= o.vertices.len()
        }
}

/// The triangles of an object: for each face, its three vertices.
pub open spec fn object_triangles(o: ObjObjectModel) -> Seq<Seq<Seq<Seq<char>>>> {
    o.faces.map_values(
        |f: (usize, usize, usize)| seq![o.vertices[f.0 - 1], o.vertices[f.1 - 1], o.vertices[f.2 - 1]],
    )
}

/// The views of a list of triangles.
pub open spec fn triangle_views(t: Seq<[[String; 3]; 3]>) -> Seq<Seq<Seq<Seq<char>>>> {
    t.map_values(|tri: [[String; 3]; 3]| tri@.map_values(|v: [String; 3]| texts(v@)))
}

fn clone_vertex(v: &[String; 3]) -> (c: [String; 3])
    ensures
        texts(c@) == texts(v@),
{
    let c = [v[0].clone(), v[1].clone(), v[2].clone()];
    assert(texts(c@) =~= texts(v@));
    c
}

impl ObjFile {
    fn object_position(&self, name: &str) -> (r: Option<usize>)
        ensures
            match find_object(self@, name@) {
                None => r is None,
                Some(o) => r matches Some(i) && i < self.objects@.len() && self.objects@[i as int].1@ == o,
            },
    {
        let mut i: usize = 0;
        assert(self@.skip(0) =~= self@);
        while i < self.objects.len()
            invariant
                i <= self.objects@.len(),
                find_object(self@, name@) == find_object(self@.skip(i as int), name@),
            decreases self.objects@.len() - i,
        {
            let ghost rest = self@.skip(i as int);
            assert(rest[0] == (self.objects@[i as int].0@, self.objects@[i as int].1@));
            assert(rest.drop_first() =~= self@.skip(i + 1));
            let n = self.objects[i].0.as_str();
            if crate::obj_file::chars_equal(str_chars(n).as_slice(), name) {
                return Some(i);
            }
            i += 1;
        }
        None
    }

    /// The triangles of the object named `obj_name`, if there is one: for each
    /// of its faces, the texts of its three vertices.
    pub fn make_triangle_list(&self, obj_name: &str) -> (r: Option<Vec<[[String; 3]; 3]>>)
        requires
            find_object(self@, obj_name@) matches Some(o) ==> faces_found(o),
        ensures
            match find_object(self@, obj_name@) {
                None => r is None,
                Some(o) => r matches Some(t) && triangle_views(t@) == object_triangles(o),
            },
    {
        let i = match self.object_position(obj_name) {
            None => {
                return None;
            },
            Some(i) => i,
        };
        let obj = &self.objects[i].1;
        let ghost o = obj@;
        let mut tris: Vec<[[String; 3]; 3]> = Vec::new();
        let mut k: usize = 0;
        while k < obj.faces.len()
            invariant
                k <= obj.faces@.len(),
                o == obj@,
                faces_found(o),
                tris@.len() == k,
                forall|q: int| 0 <= q < k ==> #[trigger] triangle_views(tris@)[q] == object_triangles(o)[q],
            decreases obj.faces@.len() - k,
        {
            let f = obj.faces[k];
            assert(o.faces[k as int] == f@);
            let a = clone_vertex(&obj.vertices[f.0 - 1]);
            let b = clone_vertex(&obj.vertices[f.1 - 1]);
            let c = clone_vertex(&obj.vertices[f.2 - 1]);
            let tri = [a, b, c];
            let ghost before = tris@;
            tris.push(tri);
            proof {
                assert(tri@.map_values(|v: [String; 3]| texts(v@)) =~= object_triangles(o)[k as int]);
                assert(triangle_views(tris@)[k as int] == tri@.map_values(|v: [String; 3]| texts(v@)));
                assert forall|q: int| 0 <= q < k + 1 implies #[trigger] triangle_views(tris@)[q] == object_triangles(o)[q] by {
                    if q < k {
                        assert(tris@[q] == before[q]);
                        assert(triangle_views(before)[q] == triangle_views(tris@)[q]);
                    }
                }
            }
            k += 1;
        }
        assert(triangle_views(tris@) =~= object_triangles(o));
        Some(tris)
    }
}

} // verus!
