use vstd::prelude::*;

use std::num::ParseIntError;
use std::sync::Arc;

use crate::float_text::{float_text_ok, is_float_str};
use crate::format::{decimal, push_decimal, string_push};
use crate::obj_format::{TriVertex, face_text_ok, try_parse_elements, vertex_text_value};
use crate::text::{
    Separator,
    chars_to_string,
    first_index_of,
    split,
    split_chars,
    split_once_chars,
    split_whitespace_pieces,
    str_chars,
    trim,
    trim_chars,
    views,
};

verus! {

broadcast use vstd::string::group_string_axioms;

#[verifier::external_type_specification]
#[verifier::external_body]
pub struct ExBmpError(bmp::BmpError);

/// One corner of an OBJ face: indices into the vertex, texture coordinate and normal lists.
pub type ObjVertex = TriVertex;

/// A triangular face and the material in use where it was read.
pub struct ObjFace {
    pub a: ObjVertex,
    pub b: ObjVertex,
    pub c: ObjVertex,
    pub mtl: Option<String>,
}

/// The vertex positions and texture coordinates of a file, as the texts of
/// their components (each one a number as `f32::from_str` reads it).
pub struct ObjShared {
    pub vertices: Vec<[String; 3]>,
    pub uv: Vec<[String; 2]>,
}

/// A named group of faces, with the vertex data of its file.
pub struct ObjGroup {
    pub name: String,
    pub faces: Vec<ObjFace>,
    pub shared: Arc<ObjShared>,
}

/// The contents of an OBJ file.
pub struct ObjFile {
    pub mtllib: Option<String>,
    pub groups: Vec<ObjGroup>,
    pub shared: Arc<ObjShared>,
}

/// Why an OBJ or MTL file could not be loaded.
#[derive(Debug)]
pub enum ObjError {
    General(String),
    IoError(std::io::Error),
    IntParseError(ParseIntError),
    BmpParseError(bmp::BmpError),
}

/// The view of an optional string.
pub open spec fn opt_text(o: Option<String>) -> Option<Seq<char>> {
    match o {
        Some(s) => Some(s@),
        None => None,
    }
}

/// The views of a list of strings.
pub open spec fn texts(v: Seq<String>) -> Seq<Seq<char>> {
    v.map_values(|s: String| s@)
}

/// What a face holds.
pub struct FaceModel {
    pub a: TriVertex,
    pub b: TriVertex,
    pub c: TriVertex,
    pub mtl: Option<Seq<char>>,
}

impl View for ObjFace {
    type V = FaceModel;

    open spec fn view(&self) -> FaceModel {
        FaceModel { a: self.a, b: self.b, c: self.c, mtl: opt_text(self.mtl) }
    }
}

/// The views of a list of faces.
pub open spec fn face_views(v: Seq<ObjFace>) -> Seq<FaceModel> {
    v.map_values(|f: ObjFace| f@)
}

/// The vertex data of a file: the component texts of each vertex and texture coordinate.
pub struct SharedModel {
    pub vertices: Seq<Seq<Seq<char>>>,
    pub uv: Seq<Seq<Seq<char>>>,
}

/// The views of a list of vertices (or texture coordinates) of `N` components.
pub open spec fn coord_views<const N: usize>(v: Seq<[String; N]>) -> Seq<Seq<Seq<char>>> {
    v.map_values(|c: [String; N]| texts(c@))
}

impl View for ObjShared {
    type V = SharedModel;

    open spec fn view(&self) -> SharedModel {
        SharedModel { vertices: coord_views(self.vertices@), uv: coord_views(self.uv@) }
    }
}

/// What a group holds.
pub struct GroupModel {
    pub name: Seq<char>,
    pub faces: Seq<FaceModel>,
    pub shared: SharedModel,
}

impl View for ObjGroup {
    type V = GroupModel;

    open spec fn view(&self) -> GroupModel {
        GroupModel { name: self.name@, faces: face_views(self.faces@), shared: self.shared@ }
    }
}

/// What a file holds.
pub struct ObjFileModel {
    pub mtllib: Option<Seq<char>>,
    pub groups: Seq<GroupModel>,
    pub shared: SharedModel,
}

impl View for ObjFile {
    type V = ObjFileModel;

    open spec fn view(&self) -> ObjFileModel {
        ObjFileModel {
            mtllib: opt_text(self.mtllib),
            groups: self.groups@.map_values(|g: ObjGroup| g@),
            shared: self.shared@,
        }
    }
}

/// The lines of `text`, as `BufRead::lines` yields them: split at each `\n`,
/// with no last empty line after a final `\n`. (A `\r` before a `\n` is kept;
/// every line is trimmed before it is read.)
pub open spec fn text_lines(text: Seq<char>) -> Seq<Seq<char>> {
    let pieces = split(text, Separator::Char('\n'));
    if text.len() == 0 || text.last() == '\n' {
        pieces.drop_last()
    } else {
        pieces
    }
}

/// The lines of `text` (see `text_lines`).
pub fn lines_of(text: &str) -> (lines: Vec<Vec<char>>)
    ensures
        views(lines@) == text_lines(text@),
{
    let chars = str_chars(text);
    let mut pieces = split_chars(chars.as_slice(), Separator::Char('\n'));
    proof {
        crate::text::lemma_split_nonempty(text@, Separator::Char('\n'));
    }
    let n = chars.len();
    if n == 0 || chars[n - 1] == '\n' {
        let ghost before = pieces@;
        pieces.pop();
        assert(views(pieces@) =~= views(before).drop_last());
    }
    pieces
}

/// `a` and `b` hold the same characters.
pub(crate) fn chars_equal(a: &[char], b: &str) -> (r: bool)
    ensures
        r == (a@ == b@),
{
    let bc = str_chars(b);
    if a.len() != bc.len() {
        return false;
    }
    let mut i: usize = 0;
    while i < a.len()
        invariant
            i <= a@.len(),
            a@.len() == bc@.len(),
            bc@ == b@,
            forall|k: int| 0 <= k < i ==> a@[k] == bc@[k],
        decreases a@.len() - i,
    {
        if a[i] != bc[i] {
            return false;
        }
        i += 1;
    }
    assert(a@ =~= b@);
    true
}

/// Appends the characters of `chars`.
pub(crate) fn push_chars(out: &mut String, chars: &[char])
    ensures
        final(out)@ == old(out)@ + chars@,
{
    let mut i: usize = 0;
    while i < chars.len()
        invariant
            i <= chars@.len(),
            out@ == old(out)@ + chars@.take(i as int),
        decreases chars@.len() - i,
    {
        string_push(out, chars[i]);
        assert(chars@.take(i + 1) =~= chars@.take(i as int).push(chars@[i as int]));
        i += 1;
    }
    assert(chars@.take(i as int) =~= chars@);
}

/// Appends the characters of `s`.
pub(crate) fn push_str(out: &mut String, s: &str)
    ensures
        final(out)@ == old(out)@ + s@,
{
    let chars = str_chars(s);
    push_chars(out, chars.as_slice());
}

/// The message of a line that could not be read: `what`, the line's
/// (0-based) number, a colon and the line's data.
pub open spec fn line_error(what: Seq<char>, line_no: nat, data: Seq<char>) -> Seq<char> {
    what + decimal(line_no) + seq![':', ' '] + data
}

pub(crate) fn line_error_message(what: &str, line_no: usize, data: &[char]) -> (m: String)
    ensures
        m@ == line_error(what@, line_no as nat, data@),
{
    let mut m = String::new();
    push_str(&mut m, what);
    push_decimal(&mut m, line_no as u64);
    string_push(&mut m, ':');
    string_push(&mut m, ' ');
    push_chars(&mut m, data);
    assert(m@ =~= line_error(what@, line_no as nat, data@));
    m
}

/// `data` is exactly `n` white-space separated numbers.
pub open spec fn numbers_ok(data: Seq<char>, n: nat) -> bool {
    let pieces = split(data, Separator::Whitespace);
    &&& pieces.len() == n
    &&& forall|i: int| 0 <= i < n ==> float_text_ok(#[trigger] pieces[i])
}

/// Reads exactly `n` white-space separated numbers, as their texts.
pub(crate) fn try_parse_numbers(data: &[char], n: usize) -> (r: Option<Vec<String>>)
    ensures
        r is Some <==> numbers_ok(data@, n as nat),
        r matches Some(v) ==> texts(v@) == split(data@, Separator::Whitespace),
{
    let line = chars_to_string(data);
    let pieces = split_whitespace_pieces(line.as_str());
    if pieces.len() != n {
        return None;
    }
    let mut i: usize = 0;
    while i < n
        invariant
            i <= n,
            pieces@.len() == n,
            line@ == data@,
            forall|k: int| 0 <= k < n ==> #[trigger] pieces@[k]@ == split(data@, Separator::Whitespace)[k],
            forall|k: int| 0 <= k < i ==> float_text_ok(#[trigger] split(data@, Separator::Whitespace)[k]),
        decreases n - i,
    {
        if !is_float_str(pieces[i].as_str()) {
            return None;
        }
        i += 1;
    }
    assert(texts(pieces@) =~= split(data@, Separator::Whitespace));
    Some(pieces)
}

/// `i` is the first position of `c` in `s`.
pub proof fn lemma_first_index_of(s: Seq<char>, c: char, i: int)
    requires
        0 <= i < s.len(),
        s[i] == c,
        forall|j: int| 0 <= j < i ==> s[j] != c,
    ensures
        first_index_of(s, c) == Some(i),
{
    let k = choose|k: int| 0 <= k < s.len() && s[k] == c && forall|j: int| 0 <= j < k ==> s[j] != c;
    assert(0 <= k < s.len() && s[k] == c && forall|j: int| 0 <= j < k ==> s[j] != c);
    if k < i {
        assert(s[k] != c);
    } else if k > i {
        assert(s[i] != c);
    }
}

/// The state of an OBJ reader between two lines.
pub struct ObjReadModel {
    pub mtllib: Option<Seq<char>>,
    pub vertices: Seq<Seq<Seq<char>>>,
    pub uv: Seq<Seq<Seq<char>>>,
    pub group_name: Option<Seq<char>>,
    pub faces: Seq<FaceModel>,
    pub mtl: Option<Seq<char>>,
    pub groups: Seq<(Seq<char>, Seq<FaceModel>)>,
}

/// The state of an OBJ reader before the first line.
pub open spec fn obj_start() -> ObjReadModel {
    ObjReadModel {
        mtllib: None,
        vertices: seq![],
        uv: seq![],
        group_name: None,
        faces: seq![],
        mtl: None,
        groups: seq![],
    }
}

/// The name of a group that was given none.
pub open spec fn group_name_or_default(name: Option<Seq<char>>) -> Seq<char> {
    match name {
        Some(n) => n,
        None => "default"@,
    }
}

/// The faces read since the last group was closed become a group (when there
/// are any), under the current group name, which is then cleared.
pub open spec fn close_group(st: ObjReadModel) -> ObjReadModel {
    if st.faces.len() == 0 {
        st
    } else {
        ObjReadModel {
            groups: st.groups.push((group_name_or_default(st.group_name), st.faces)),
            group_name: None,
            faces: seq![],
            ..st
        }
    }
}

/// What reading line `line_no` (0-based) of an OBJ file does: the trimmed line
/// is skipped if it is a comment; else the word before its first space is the
/// directive and the rest its data. `mtllib` and `usemtl` set the material
/// library and the current material, `g` closes the current group and names
/// the next, `v` and `vt` add a vertex (three numbers) or a texture coordinate
/// (two numbers), `f` adds a face (three face vertices) with the current
/// material; any other line is skipped. A `v`, `vt` or `f` line whose data is
/// not read is an error, with the message it gives.
pub open spec fn obj_step(st: ObjReadModel, line_no: nat, raw: Seq<char>) -> Result<ObjReadModel, Seq<char>> {
    let line = trim(raw);
    if line.len() > 0 && line[0] == '#' {
        Ok(st)
    } else {
        match first_index_of(line, ' ') {
            None => Ok(st),
            Some(i) => {
                let key = line.take(i);
                let data = line.skip(i + 1);
                if key == "mtllib"@ {
                    Ok(ObjReadModel { mtllib: Some(trim(data)), ..st })
                } else if key == "usemtl"@ {
                    Ok(ObjReadModel { mtl: Some(trim(data)), ..st })
                } else if key == "g"@ {
                    Ok(ObjReadModel { group_name: Some(trim(data)), ..close_group(st) })
                } else if key == "v"@ {
                    if numbers_ok(data, 3) {
                        Ok(ObjReadModel { vertices: st.vertices.push(split(data, Separator::Whitespace)), ..st })
                    } else {
                        Err(line_error("Unable to parse vertex on line "@, line_no, data))
                    }
                } else if key == "vt"@ {
                    if numbers_ok(data, 2) {
                        Ok(ObjReadModel { uv: st.uv.push(split(data, Separator::Whitespace)), ..st })
                    } else {
                        Err(line_error("Unable to parse texture vertex on line "@, line_no, data))
                    }
                } else if key == "f"@ {
                    if face_text_ok(data) {
                        let p = split(data, Separator::Whitespace);
                        let face = FaceModel {
                            a: vertex_text_value(p[0]),
                            b: vertex_text_value(p[1]),
                            c: vertex_text_value(p[2]),
                            mtl: st.mtl,
                        };
                        Ok(ObjReadModel { faces: st.faces.push(face), ..st })
                    } else {
                        Err(line_error("Unable to parse face on line "@, line_no, data))
                    }
                } else {
                    Ok(st)
                }
            },
        }
    }
}

struct ObjReader {
    mtllib: Option<String>,
    vertices: Vec<[String; 3]>,
    uv: Vec<[String; 2]>,
    group_name: Option<String>,
    faces: Vec<ObjFace>,
    mtl: Option<String>,
    groups: Vec<(String, Vec<ObjFace>)>,
}

impl View for ObjReader {
    type V = ObjReadModel;

    closed spec fn view(&self) -> ObjReadModel {
        ObjReadModel {
            mtllib: opt_text(self.mtllib),
            vertices: coord_views(self.vertices@),
            uv: coord_views(self.uv@),
            group_name: opt_text(self.group_name),
            faces: face_views(self.faces@),
            mtl: opt_text(self.mtl),
            groups: self.groups@.map_values(|g: (String, Vec<ObjFace>)| (g.0@, face_views(g.1@))),
        }
    }
}

pub(crate) fn clone_text(o: &Option<String>) -> (r: Option<String>)
    ensures
        r == *o,
{
    match o {
        Some(s) => Some(s.clone()),
        None => None,
    }
}

/// The trimmed text of `chars`.
pub(crate) fn trimmed_string(chars: &[char]) -> (s: String)
    ensures
        s@ == trim(chars@),
{
    let t = trim_chars(chars);
    chars_to_string(t.as_slice())
}

impl ObjReader {
    fn new() -> (r: ObjReader)
        ensures
            r@ == obj_start(),
    {
        let r = ObjReader {
            mtllib: None,
            vertices: Vec::new(),
            uv: Vec::new(),
            group_name: None,
            faces: Vec::new(),
            mtl: None,
            groups: Vec::new(),
        };
        assert(r@.vertices =~= seq![]);
        assert(r@.uv =~= seq![]);
        assert(r@.faces =~= seq![]);
        assert(r@.groups =~= seq![]);
        r
    }

    fn close_group(&mut self)
        ensures
            final(self)@ == close_group(old(self)@),
    {
        if self.faces.len() == 0 {
            return;
        }
        let name = match self.group_name.take() {
            Some(n) => n,
            None => "default".to_owned(),
        };
        let mut faces: Vec<ObjFace> = Vec::new();
        std::mem::swap(&mut faces, &mut self.faces);
        let ghost before = self.groups@;
        self.groups.push((name, faces));
        proof {
            let f = |g: (String, Vec<ObjFace>)| (g.0@, face_views(g.1@));
            assert(self.groups@.map_values(f) =~= before.map_values(f).push((name@, face_views(faces@))));
            assert(face_views(self.faces@) =~= seq![]);
        }
    }

    fn read_line(&mut self, line_no: usize, raw: &[char]) -> (r: Result<(), String>)
        ensures
            match obj_step(old(self)@, line_no as nat, raw@) {
                Ok(st) => r is Ok && final(self)@ == st,
                Err(m) => r matches Err(e) && e@ == m,
            },
    {
        let line = trim_chars(raw);
        if line.len() > 0 && line[0] == '#' {
            return Ok(());
        }
        let parts = split_once_chars(line.as_slice(), ' ');
        match parts {
            None => {
                return Ok(());
            },
            Some((key, data)) => {
                let ghost i = choose|i: int|
                    0 <= i < line@.len() && line@[i] == ' ' && (forall|j: int| 0 <= j < i ==> line@[j] != ' ')
                        && key@ == line@.take(i) && data@ == line@.skip(i + 1);
                proof {
                    lemma_first_index_of(line@, ' ', i);
                }
                if chars_equal(key.as_slice(), "mtllib") {
                    self.mtllib = Some(trimmed_string(data.as_slice()));
                    Ok(())
                } else if chars_equal(key.as_slice(), "usemtl") {
                    self.mtl = Some(trimmed_string(data.as_slice()));
                    Ok(())
                } else if chars_equal(key.as_slice(), "g") {
                    self.close_group();
                    self.group_name = Some(trimmed_string(data.as_slice()));
                    Ok(())
                } else if chars_equal(key.as_slice(), "v") {
                    match try_parse_numbers(data.as_slice(), 3) {
                        None => Err(line_error_message("Unable to parse vertex on line ", line_no, data.as_slice())),
                        Some(v) => {
                            let ghost before = self.vertices@;
                            let xyz = [v[0].clone(), v[1].clone(), v[2].clone()];
                            self.vertices.push(xyz);
                            proof {
                                assert(texts(xyz@) =~= texts(v@));
                                assert(coord_views(self.vertices@) =~= coord_views(before).push(texts(xyz@)));
                            }
                            Ok(())
                        },
                    }
                } else if chars_equal(key.as_slice(), "vt") {
                    match try_parse_numbers(data.as_slice(), 2) {
                        None => Err(
                            line_error_message("Unable to parse texture vertex on line ", line_no, data.as_slice()),
                        ),
                        Some(v) => {
                            let ghost before = self.uv@;
                            let uv = [v[0].clone(), v[1].clone()];
                            self.uv.push(uv);
                            proof {
                                assert(texts(uv@) =~= texts(v@));
                                assert(coord_views(self.uv@) =~= coord_views(before).push(texts(uv@)));
                            }
                            Ok(())
                        },
                    }
                } else if chars_equal(key.as_slice(), "f") {
                    let text = chars_to_string(data.as_slice());
                    match try_parse_elements(text.as_str()) {
                        None => Err(line_error_message("Unable to parse face on line ", line_no, data.as_slice())),
                        Some(vs) => {
                            let ghost before = self.faces@;
                            let mtl = clone_text(&self.mtl);
                            let face = ObjFace { a: vs[0], b: vs[1], c: vs[2], mtl };
                            self.faces.push(face);
                            proof {
                                assert(face_views(self.faces@) =~= face_views(before).push(face@));
                            }
                            Ok(())
                        },
                    }
                } else {
                    Ok(())
                }
            },
        }
    }
}

/// The state after reading the first `n` lines, or the message of the first
/// line among them that could not be read.
pub open spec fn obj_read(lines: Seq<Seq<char>>, n: nat) -> Result<ObjReadModel, Seq<char>>
    decreases n,
{
    if n == 0 {
        Ok(obj_start())
    } else {
        match obj_read(lines, (n - 1) as nat) {
            Ok(st) => obj_step(st, (n - 1) as nat, lines[n - 1]),
            Err(m) => Err(m),
        }
    }
}

/// The file that a state describes once every line is read: the last group is
/// closed, and every group shares the file's vertex data.
pub open spec fn obj_complete(st: ObjReadModel) -> ObjFileModel {
    let done = close_group(st);
    let shared = SharedModel { vertices: done.vertices, uv: done.uv };
    ObjFileModel {
        mtllib: done.mtllib,
        groups: done.groups.map_values(
            |g: (Seq<char>, Seq<FaceModel>)| GroupModel { name: g.0, faces: g.1, shared: shared },
        ),
        shared: shared,
    }
}

/// What reading the text of an OBJ file gives: the file, or the message of the
/// first line that could not be read.
pub open spec fn obj_file_result(text: Seq<char>) -> Result<ObjFileModel, Seq<char>> {
    let lines = text_lines(text);
    match obj_read(lines, lines.len()) {
        Ok(st) => Ok(obj_complete(st)),
        Err(m) => Err(m),
    }
}

/// The directive and the data of a line of an OBJ or MTL file: the trimmed
/// line up to its first space and what follows that space; none for a
/// comment or a line without a space.
pub open spec fn line_directive(raw: Seq<char>) -> Option<(Seq<char>, Seq<char>)> {
    let line = trim(raw);
    if line.len() > 0 && line[0] == '#' {
        None
    } else {
        match first_index_of(line, ' ') {
            None => None,
            Some(i) => Some((line.take(i), line.skip(i + 1))),
        }
    }
}

/// The material named by the last `usemtl` line among the first `k` lines
/// (its data, trimmed), or none where no such line comes before.
pub open spec fn material_before(lines: Seq<Seq<char>>, k: nat) -> Option<Seq<char>>
    decreases k,
{
    if k == 0 {
        None
    } else {
        match line_directive(lines[k - 1]) {
            Some(d) => if d.0 == "usemtl"@ {
                Some(trim(d.1))
            } else {
                material_before(lines, (k - 1) as nat)
            },
            None => material_before(lines, (k - 1) as nat),
        }
    }
}

/// The positions of the `f` lines among the first `n` lines, in order.
pub open spec fn face_line_positions(lines: Seq<Seq<char>>, n: nat) -> Seq<nat>
    decreases n,
{
    if n == 0 {
        Seq::empty()
    } else {
        let before = face_line_positions(lines, (n - 1) as nat);
        match line_directive(lines[n - 1]) {
            Some(d) => if d.0 == "f"@ {
                before.push((n - 1) as nat)
            } else {
                before
            },
            None => before,
        }
    }
}

/// The faces of groups, group after group.
pub open spec fn faces_of_groups(groups: Seq<(Seq<char>, Seq<FaceModel>)>) -> Seq<FaceModel>
    decreases groups.len(),
{
    if groups.len() == 0 {
        Seq::empty()
    } else {
        faces_of_groups(groups.drop_last()) + groups.last().1
    }
}

/// The faces of a file's groups, group after group.
pub open spec fn file_faces(groups: Seq<GroupModel>) -> Seq<FaceModel>
    decreases groups.len(),
{
    if groups.len() == 0 {
        Seq::empty()
    } else {
        file_faces(groups.drop_last()) + groups.last().faces
    }
}

/// While an OBJ file is read, the current material is the one the last
/// `usemtl` line named, and the faces read so far, closed groups first, are
/// one for each `f` line, each with the material that was current at its line.
proof fn lemma_read_materials(lines: Seq<Seq<char>>, n: nat)
    requires
        n <= lines.len(),
        obj_read(lines, n) is Ok,
    ensures
        ({
            let st = obj_read(lines, n)->Ok_0;
            let fs = faces_of_groups(st.groups) + st.faces;
            let pos = face_line_positions(lines, n);
            &&& st.mtl == material_before(lines, n)
            &&& fs.len() == pos.len()
            &&& forall|i: int| 0 <= i < fs.len() ==> #[trigger] fs[i].mtl == material_before(lines, pos[i])
        }),
    decreases n,
{
    reveal_strlit("mtllib");
    reveal_strlit("usemtl");
    reveal_strlit("f");
    reveal_strlit("g");
    reveal_strlit("v");
    reveal_strlit("vt");
    if n > 0 {
        let k = (n - 1) as nat;
        if obj_read(lines, k) is Err {
            assert(obj_read(lines, n) is Err);
        }
        lemma_read_materials(lines, k);
        let st = obj_read(lines, k)->Ok_0;
        let st2 = obj_read(lines, n)->Ok_0;
        assert(obj_step(st, k, lines[k as int]) == Ok::<ObjReadModel, Seq<char>>(st2));
        let fs = faces_of_groups(st.groups) + st.faces;
        let fs2 = faces_of_groups(st2.groups) + st2.faces;
        let pos = face_line_positions(lines, k);
        let pos2 = face_line_positions(lines, n);
        let line = trim(lines[k as int]);
        match line_directive(lines[k as int]) {
            None => {
                assert(st2 == st);
                assert(pos2 == pos);
            },
            Some(d) => {
                let key = d.0;
                assert("mtllib"@.len() == 6 && "usemtl"@.len() == 6 && "f"@.len() == 1 && "g"@.len() == 1
                    && "v"@.len() == 1 && "vt"@.len() == 2);
                assert("f"@[0] == 'f' && "g"@[0] == 'g' && "v"@[0] == 'v' && "usemtl"@[0] == 'u');
                if key == "g"@ {
                    assert(key != "f"@ && key != "v"@ && key != "usemtl"@ && key != "mtllib"@ && key != "vt"@);
                    let cg = close_group(st);
                    if st.faces.len() > 0 {
                        assert(cg.groups.drop_last() =~= st.groups);
                        assert(faces_of_groups(cg.groups) == faces_of_groups(st.groups) + st.faces);
                    }
                    assert(fs2 =~= fs);
                    assert(pos2 == pos);
                } else if key == "f"@ {
                    assert(key != "g"@ && key != "v"@ && key != "usemtl"@ && key != "mtllib"@ && key != "vt"@);
                    assert(pos2 == pos.push(k));
                    assert(st2.groups == st.groups);
                    assert(st2.faces.drop_last() =~= st.faces);
                    assert(st2.faces.last().mtl == st.mtl);
                    assert(fs2 =~= fs.push(st2.faces.last()));
                    assert forall|i: int| 0 <= i < fs2.len() implies #[trigger] fs2[i].mtl == material_before(lines, pos2[i]) by {
                        if i < fs.len() {
                            assert(fs2[i] == fs[i]);
                            assert(pos2[i] == pos[i]);
                        }
                    }
                } else {
                    assert(st2.groups == st.groups);
                    assert(st2.faces == st.faces);
                    assert(pos2 == pos);
                }
            },
        }
    }
}

/// In a file that was read, each face has the material that the last
/// `usemtl` line before the face's `f` line named, or none where no such line
/// comes before it, whatever `g` lines come between: the faces of the file's
/// groups, group after group, are one for each `f` line of the text, in order.
pub proof fn lemma_face_materials(text: Seq<char>)
    requires
        obj_file_result(text) is Ok,
    ensures
        ({
            let lines = text_lines(text);
            let pos = face_line_positions(lines, lines.len());
            let fs = file_faces(obj_file_result(text)->Ok_0.groups);
            &&& fs.len() == pos.len()
            &&& forall|i: int| 0 <= i < fs.len() ==> #[trigger] fs[i].mtl == material_before(lines, pos[i])
        }),
{
    let lines = text_lines(text);
    lemma_read_materials(lines, lines.len());
    let st = obj_read(lines, lines.len())->Ok_0;
    let done = close_group(st);
    let f = obj_complete(st);
    lemma_file_faces_of(done.groups, f.shared);
    if st.faces.len() > 0 {
        assert(done.groups.drop_last() =~= st.groups);
        assert(faces_of_groups(done.groups) == faces_of_groups(st.groups) + st.faces);
    } else {
        assert(faces_of_groups(st.groups) + st.faces =~= faces_of_groups(st.groups));
    }
}

/// Giving groups their vertex data keeps their faces.
proof fn lemma_file_faces_of(groups: Seq<(Seq<char>, Seq<FaceModel>)>, shared: SharedModel)
    ensures
        file_faces(
            groups.map_values(|g: (Seq<char>, Seq<FaceModel>)| GroupModel { name: g.0, faces: g.1, shared: shared }),
        ) == faces_of_groups(groups),
    decreases groups.len(),
{
    let f = |g: (Seq<char>, Seq<FaceModel>)| GroupModel { name: g.0, faces: g.1, shared: shared };
    if groups.len() > 0 {
        lemma_file_faces_of(groups.drop_last(), shared);
        assert(groups.map_values(f).drop_last() =~= groups.drop_last().map_values(f));
    } else {
        assert(groups.map_values(f) =~= Seq::<GroupModel>::empty());
    }
}

/// Once a line could not be read, no later line changes the outcome.
pub proof fn lemma_obj_read_error_stays(lines: Seq<Seq<char>>, k: nat, n: nat)
    requires
        k <= n,
        obj_read(lines, k) is Err,
    ensures
        obj_read(lines, n) == obj_read(lines, k),
    decreases n,
{
    if n > k {
        lemma_obj_read_error_stays(lines, k, (n - 1) as nat);
    }
}

/// Another handle to the value behind `a` (`Arc::clone`).
#[verifier::external_body]
pub(crate) fn share<T>(a: &Arc<T>) -> (b: Arc<T>)
    ensures
        b == *a,
{
    Arc::clone(a)
}

impl ObjReader {
    fn into_file(self) -> (f: ObjFile)
        ensures
            self@.faces.len() == 0 ==> f@ == obj_complete(self@),
    {
        let ghost st = self@;
        let shared = Arc::new(ObjShared { vertices: self.vertices, uv: self.uv });
        let ghost sm = SharedModel { vertices: st.vertices, uv: st.uv };
        assert(shared@ == sm);
        let mut groups: Vec<ObjGroup> = Vec::new();
        let ghost parts = self.groups@;
        for g in it: self.groups.into_iter()
            invariant
                it.seq() == parts,
                shared@ == sm,
                groups@.len() == it.index(),
                forall|k: int| 0 <= k < it.index() ==> #[trigger] groups@[k]@ == (GroupModel {
                    name: parts[k].0@,
                    faces: face_views(parts[k].1@),
                    shared: sm,
                }),
        {
            let (name, faces) = g;
            groups.push(ObjGroup { name, faces, shared: share(&shared) });
        }
        let f = ObjFile { mtllib: self.mtllib, groups, shared };
        proof {
            if st.faces.len() == 0 {
                assert(f@.groups =~= obj_complete(st).groups);
            }
        }
        f
    }
}

/// Reads the text of an OBJ file: the `mtllib`, `usemtl`, `g`, `v`, `vt` and
/// `f` directives of its lines; faces before the first `g` form the group
/// `default`. Fails with the message of the first `v`, `vt` or `f` line that
/// could not be read.
pub fn parse_obj_file(text: &str) -> (r: Result<ObjFile, ObjError>)
    ensures
        match obj_file_result(text@) {
            Ok(f) => r matches Ok(file) && file@ == f,
            Err(m) => r matches Err(ObjError::General(e)) && e@ == m,
        },
{
    let lines = lines_of(text);
    let ghost ls = text_lines(text@);
    let mut reader = ObjReader::new();
    let mut i: usize = 0;
    while i < lines.len()
        invariant
            i <= lines@.len(),
            views(lines@) == ls,
            ls == text_lines(text@),
            obj_read(ls, i as nat) == Ok::<ObjReadModel, Seq<char>>(reader@),
        decreases lines@.len() - i,
    {
        assert(ls[i as int] == lines@[i as int]@);
        let ghost before = reader@;
        match reader.read_line(i, lines[i].as_slice()) {
            Ok(()) => {},
            Err(e) => {
                proof {
                    assert(obj_read(ls, (i + 1) as nat) == obj_step(before, i as nat, ls[i as int]));
                    lemma_obj_read_error_stays(ls, (i + 1) as nat, ls.len());
                }
                return Err(ObjError::General(e));
            },
        }
        i += 1;
    }
    let ghost end = reader@;
    reader.close_group();
    let file = reader.into_file();
    assert(close_group(close_group(end)) == close_group(end));
    Ok(file)
}

/// Every group that a reader has closed holds at least one face.
pub open spec fn groups_nonempty(st: ObjReadModel) -> bool {
    forall|k: int| 0 <= k < st.groups.len() ==> (#[trigger] st.groups[k]).1.len() > 0
}

proof fn lemma_step_keeps_groups_nonempty(st: ObjReadModel, line_no: nat, raw: Seq<char>)
    requires
        groups_nonempty(st),
    ensures
        obj_step(st, line_no, raw) matches Ok(next) ==> groups_nonempty(next),
        groups_nonempty(close_group(st)),
{
    let c = close_group(st);
    assert forall|k: int| 0 <= k < c.groups.len() implies (#[trigger] c.groups[k]).1.len() > 0 by {
        if k < st.groups.len() {
            assert(c.groups[k] == st.groups[k]);
        }
    }
}

proof fn lemma_read_keeps_groups_nonempty(lines: Seq<Seq<char>>, n: nat)
    ensures
        obj_read(lines, n) matches Ok(st) ==> groups_nonempty(st),
    decreases n,
{
    if n > 0 {
        lemma_read_keeps_groups_nonempty(lines, (n - 1) as nat);
        if let Ok(st) = obj_read(lines, (n - 1) as nat) {
            lemma_step_keeps_groups_nonempty(st, (n - 1) as nat, lines[n - 1]);
        }
    }
}

/// Every group of a file that was read holds at least one face, and every
/// group shares the file's vertex data.
pub proof fn lemma_obj_groups_nonempty_and_shared(text: Seq<char>)
    ensures
        obj_file_result(text) matches Ok(f) ==> forall|k: int|
            0 <= k < f.groups.len() ==> {
                &&& (#[trigger] f.groups[k]).faces.len() > 0
                &&& f.groups[k].shared == f.shared
            },
{
    let lines = text_lines(text);
    lemma_read_keeps_groups_nonempty(lines, lines.len());
    if let Ok(st) = obj_read(lines, lines.len()) {
        lemma_step_keeps_groups_nonempty(st, 0, seq![]);
    }
}

} // verus!
