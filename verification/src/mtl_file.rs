use vstd::prelude::*;

use crate::obj_file::{
    chars_equal,
    clone_text,
    line_error,
    line_error_message,
    lines_of,
    numbers_ok,
    opt_text,
    text_lines,
    texts,
    trimmed_string,
    try_parse_numbers,
    lemma_first_index_of,
    line_directive,
};
use crate::text::{Separator, first_index_of, split, split_once_chars, trim, trim_chars, views};

verus! {

broadcast use vstd::string::group_string_axioms;

/// A material: its name, its ambient, specular and diffuse colors (the texts
/// of their red, green and blue components, `0` where the file gives none)
/// and the file of its diffuse color map, if any.
pub struct ObjMaterial {
    pub name: String,
    pub ambient_color: [String; 3],
    pub specular_color: [String; 3],
    pub diffuse_color: [String; 3],
    pub diffuse_color_map: Option<String>,
}

/// The materials of an MTL file.
pub struct MtlFile {
    pub materials: Vec<ObjMaterial>,
}

/// What a material holds.
pub struct MaterialModel {
    pub name: Seq<char>,
    pub ambient_color: Seq<Seq<char>>,
    pub specular_color: Seq<Seq<char>>,
    pub diffuse_color: Seq<Seq<char>>,
    pub diffuse_color_map: Option<Seq<char>>,
}

impl View for ObjMaterial {
    type V = MaterialModel;

    open spec fn view(&self) -> MaterialModel {
        MaterialModel {
            name: self.name@,
            ambient_color: texts(self.ambient_color@),
            specular_color: texts(self.specular_color@),
            diffuse_color: texts(self.diffuse_color@),
            diffuse_color_map: opt_text(self.diffuse_color_map),
        }
    }
}

/// The views of a list of materials.
pub open spec fn material_views(v: Seq<ObjMaterial>) -> Seq<MaterialModel> {
    v.map_values(|m: ObjMaterial| m@)
}

impl View for MtlFile {
    type V = Seq<MaterialModel>;

    open spec fn view(&self) -> Seq<MaterialModel> {
        material_views(self.materials@)
    }
}

/// The color that a material has where the file gives none.
pub open spec fn no_color() -> Seq<Seq<char>> {
    seq!["0"@, "0"@, "0"@]
}

/// The state of an MTL reader between two lines.
pub struct MtlReadModel {
    pub name: Option<Seq<char>>,
    pub ambient_color: Seq<Seq<char>>,
    pub specular_color: Seq<Seq<char>>,
    pub diffuse_color: Seq<Seq<char>>,
    pub diffuse_color_map: Option<Seq<char>>,
    pub materials: Seq<MaterialModel>,
}

/// The state of an MTL reader before the first line.
pub open spec fn mtl_start() -> MtlReadModel {
    MtlReadModel {
        name: None,
        ambient_color: no_color(),
        specular_color: no_color(),
        diffuse_color: no_color(),
        diffuse_color_map: None,
        materials: seq![],
    }
}

/// The material being read becomes a material of the file (when it has been
/// named), and the next one starts with no name, colors or color map.
pub open spec fn close_material(st: MtlReadModel) -> MtlReadModel {
    match st.name {
        None => st,
        Some(name) => MtlReadModel {
            name: None,
            ambient_color: no_color(),
            specular_color: no_color(),
            diffuse_color: no_color(),
            diffuse_color_map: None,
            materials: st.materials.push(
                MaterialModel {
                    name: name,
                    ambient_color: st.ambient_color,
                    specular_color: st.specular_color,
                    diffuse_color: st.diffuse_color,
                    diffuse_color_map: st.diffuse_color_map,
                },
            ),
        },
    }
}

/// What reading line `line_no` (0-based) of an MTL file does: the trimmed line
/// is skipped if it is a comment; else the word before its first space is the
/// directive and the rest its data. `newmtl` closes the current material and
/// names the next, `Ka`, `Ks` and `Kd` set its ambient, specular and diffuse
/// color (three numbers), `map_Kd` its diffuse color map; any other line is
/// skipped. A color line whose data is not three numbers is an error, with the
/// message it gives.
pub open spec fn mtl_step(st: MtlReadModel, line_no: nat, raw: Seq<char>) -> Result<MtlReadModel, Seq<char>> {
    let line = trim(raw);
    if line.len() > 0 && line[0] == '#' {
        Ok(st)
    } else {
        match first_index_of(line, ' ') {
            None => Ok(st),
            Some(i) => {
                let key = line.take(i);
                let data = line.skip(i + 1);
                let color = split(data, Separator::Whitespace);
                if key == "newmtl"@ {
                    Ok(MtlReadModel { name: Some(trim(data)), ..close_material(st) })
                } else if key == "Ka"@ {
                    if numbers_ok(data, 3) {
                        Ok(MtlReadModel { ambient_color: color, ..st })
                    } else {
                        Err(line_error("Unable to parse Ka on line "@, line_no, data))
                    }
                } else if key == "Ks"@ {
                    if numbers_ok(data, 3) {
                        Ok(MtlReadModel { specular_color: color, ..st })
                    } else {
                        Err(line_error("Unable to parse Ks on line "@, line_no, data))
                    }
                } else if key == "Kd"@ {
                    if numbers_ok(data, 3) {
                        Ok(MtlReadModel { diffuse_color: color, ..st })
                    } else {
                        Err(line_error("Unable to parse Kd on line "@, line_no, data))
                    }
                } else if key == "map_Kd"@ {
                    Ok(MtlReadModel { diffuse_color_map: Some(trim(data)), ..st })
                } else {
                    Ok(st)
                }
            },
        }
    }
}

/// The state after reading the first `n` lines, or the message of the first
/// line among them that could not be read.
pub open spec fn mtl_read(lines: Seq<Seq<char>>, n: nat) -> Result<MtlReadModel, Seq<char>>
    decreases n,
{
    if n == 0 {
        Ok(mtl_start())
    } else {
        match mtl_read(lines, (n - 1) as nat) {
            Ok(st) => mtl_step(st, (n - 1) as nat, lines[n - 1]),
            Err(m) => Err(m),
        }
    }
}

/// What reading the text of an MTL file gives: its materials, the last one
/// closed, or the message of the first line that could not be read.
pub open spec fn mtl_file_result(text: Seq<char>) -> Result<Seq<MaterialModel>, Seq<char>> {
    let lines = text_lines(text);
    match mtl_read(lines, lines.len()) {
        Ok(st) => Ok(close_material(st).materials),
        Err(m) => Err(m),
    }
}

/// The positions of the `newmtl` lines among the first `n` lines, in order.
pub open spec fn newmtl_positions(lines: Seq<Seq<char>>, n: nat) -> Seq<nat>
    decreases n,
{
    if n == 0 {
        Seq::empty()
    } else {
        let before = newmtl_positions(lines, (n - 1) as nat);
        match line_directive(lines[n - 1]) {
            Some(d) => if d.0 == "newmtl"@ {
                before.push((n - 1) as nat)
            } else {
                before
            },
            None => before,
        }
    }
}

/// The color (the white-space separated pieces of its data) of the last line
/// of directive `key` among lines `lo..hi`, or `0 0 0` where there is none.
pub open spec fn last_color(lines: Seq<Seq<char>>, lo: nat, hi: nat, key: Seq<char>) -> Seq<Seq<char>>
    decreases hi,
{
    if hi <= lo {
        no_color()
    } else {
        match line_directive(lines[hi - 1]) {
            Some(d) => if d.0 == key {
                split(d.1, Separator::Whitespace)
            } else {
                last_color(lines, lo, (hi - 1) as nat, key)
            },
            None => last_color(lines, lo, (hi - 1) as nat, key),
        }
    }
}

/// Where the lines of material `i` start: at the top of the file for the
/// first material (lines before its `newmtl` line go to it), else at its
/// `newmtl` line.
pub open spec fn material_start(pos: Seq<nat>, i: int) -> nat {
    if i == 0 {
        0
    } else {
        pos[i]
    }
}

/// Where the lines of material `i` end: at the next `newmtl` line, or at the
/// end of the `n` lines.
pub open spec fn material_end(pos: Seq<nat>, i: int, n: nat) -> nat {
    if i + 1 < pos.len() {
        pos[i + 1]
    } else {
        n
    }
}

/// A material's colors are those of the last `Ka`, `Ks` and `Kd` lines among its lines.
pub open spec fn colors_from_lines(m: MaterialModel, lines: Seq<Seq<char>>, lo: nat, hi: nat) -> bool {
    &&& m.ambient_color == last_color(lines, lo, hi, "Ka"@)
    &&& m.specular_color == last_color(lines, lo, hi, "Ks"@)
    &&& m.diffuse_color == last_color(lines, lo, hi, "Kd"@)
}

/// A line that is no line of `key` leaves the last color of `key` as it was.
proof fn lemma_last_color_other(lines: Seq<Seq<char>>, lo: nat, k: nat, key: Seq<char>)
    requires
        lo <= k,
        !(line_directive(lines[k as int]) matches Some(d) && d.0 == key),
    ensures
        last_color(lines, lo, k + 1, key) == last_color(lines, lo, k, key),
{
    assert(lines[(k + 1) - 1] == lines[k as int]);
}

/// While an MTL file is read, the materials closed so far are one for each
/// `newmtl` line but the last, each with the colors of its lines, and the
/// material being read has the colors of its lines read so far.
proof fn lemma_read_colors(lines: Seq<Seq<char>>, n: nat)
    requires
        n <= lines.len(),
        mtl_read(lines, n) is Ok,
    ensures
        ({
            let st = mtl_read(lines, n)->Ok_0;
            let pos = newmtl_positions(lines, n);
            let cur = if pos.len() == 0 {
                0nat
            } else {
                material_start(pos, pos.len() - 1)
            };
            &&& (st.name is Some <==> pos.len() > 0)
            &&& st.materials.len() == if pos.len() == 0 {
                0
            } else {
                pos.len() - 1
            }
            &&& forall|i: int|
                0 <= i < st.materials.len() ==> colors_from_lines(
                    #[trigger] st.materials[i],
                    lines,
                    material_start(pos, i),
                    pos[i + 1],
                )
            &&& st.ambient_color == last_color(lines, cur, n, "Ka"@)
            &&& st.specular_color == last_color(lines, cur, n, "Ks"@)
            &&& st.diffuse_color == last_color(lines, cur, n, "Kd"@)
            &&& forall|i: int| 0 <= i < pos.len() ==> #[trigger] pos[i] < n
        }),
    decreases n,
{
    reveal_strlit("newmtl");
    reveal_strlit("Ka");
    reveal_strlit("Ks");
    reveal_strlit("Kd");
    reveal_strlit("map_Kd");
    assert("newmtl"@.len() == 6 && "Ka"@.len() == 2 && "Ks"@.len() == 2 && "Kd"@.len() == 2 && "map_Kd"@.len() == 6);
    assert("newmtl"@[0] == 'n' && "map_Kd"@[0] == 'm' && "Ka"@[1] == 'a' && "Ks"@[1] == 's' && "Kd"@[1] == 'd');
    if n > 0 {
        let k = (n - 1) as nat;
        if mtl_read(lines, k) is Err {
            assert(mtl_read(lines, n) is Err);
        }
        lemma_read_colors(lines, k);
        let st = mtl_read(lines, k)->Ok_0;
        let st2 = mtl_read(lines, n)->Ok_0;
        assert(mtl_step(st, k, lines[k as int]) == Ok::<MtlReadModel, Seq<char>>(st2));
        let pos = newmtl_positions(lines, k);
        let pos2 = newmtl_positions(lines, n);
        let cur = if pos.len() == 0 {
            0nat
        } else {
            material_start(pos, pos.len() - 1)
        };
        assert(cur <= k) by {
            if pos.len() > 0 {
                assert(pos[pos.len() - 1] < k);
            }
        }
        let dir = line_directive(lines[k as int]);
        if dir matches Some(d) && d.0 == "newmtl"@ {
            assert(pos2 == pos.push(k));
            let cur2 = material_start(pos2, pos2.len() - 1);
            assert(last_color(lines, cur2, n, "Ka"@) == last_color(lines, cur2, k, "Ka"@));
            assert(last_color(lines, cur2, n, "Ks"@) == last_color(lines, cur2, k, "Ks"@));
            assert(last_color(lines, cur2, n, "Kd"@) == last_color(lines, cur2, k, "Kd"@));
            assert forall|i: int| 0 <= i < st2.materials.len() implies colors_from_lines(
                #[trigger] st2.materials[i],
                lines,
                material_start(pos2, i),
                pos2[i + 1],
            ) by {
                if i < st.materials.len() {
                    assert(st2.materials[i] == st.materials[i]);
                    assert(material_start(pos2, i) == material_start(pos, i));
                    assert(pos2[i + 1] == pos[i + 1]);
                } else {
                    assert(material_start(pos2, i) == cur);
                    assert(pos2[i + 1] == k);
                }
            }
        } else {
            assert(pos2 == pos);
            if !(dir matches Some(d) && d.0 == "Ka"@) {
                lemma_last_color_other(lines, cur, k, "Ka"@);
            }
            if !(dir matches Some(d) && d.0 == "Ks"@) {
                lemma_last_color_other(lines, cur, k, "Ks"@);
            }
            if !(dir matches Some(d) && d.0 == "Kd"@) {
                lemma_last_color_other(lines, cur, k, "Kd"@);
            }
            assert(st2.materials == st.materials);
            assert(st2.name == st.name);
        }
    }
}

/// In a file that was read, the materials are one for each `newmtl` line, in
/// order, and each has as its ambient, specular and diffuse color the data of
/// the last `Ka`, `Ks` and `Kd` line among its own lines (from its `newmtl`
/// line, or from the top of the file for the first material, to the next
/// `newmtl` line or the end), or `0 0 0` where there is none: no color of one
/// material carries over to the next.
pub proof fn lemma_material_colors(text: Seq<char>)
    requires
        mtl_file_result(text) is Ok,
    ensures
        ({
            let lines = text_lines(text);
            let pos = newmtl_positions(lines, lines.len());
            let ms = mtl_file_result(text)->Ok_0;
            &&& ms.len() == pos.len()
            &&& forall|i: int|
                0 <= i < ms.len() ==> colors_from_lines(
                    #[trigger] ms[i],
                    lines,
                    material_start(pos, i),
                    material_end(pos, i, lines.len()),
                )
        }),
{
    let lines = text_lines(text);
    let n = lines.len();
    lemma_read_colors(lines, n);
    let st = mtl_read(lines, n)->Ok_0;
    let pos = newmtl_positions(lines, n);
    let ms = close_material(st).materials;
    assert forall|i: int| 0 <= i < ms.len() implies colors_from_lines(
        #[trigger] ms[i],
        lines,
        material_start(pos, i),
        material_end(pos, i, n),
    ) by {
        if i < st.materials.len() {
            assert(ms[i] == st.materials[i]);
        }
    }
}

/// Once a line could not be read, no later line changes the outcome.
pub proof fn lemma_mtl_read_error_stays(lines: Seq<Seq<char>>, k: nat, n: nat)
    requires
        k <= n,
        mtl_read(lines, k) is Err,
    ensures
        mtl_read(lines, n) == mtl_read(lines, k),
    decreases n,
{
    if n > k {
        lemma_mtl_read_error_stays(lines, k, (n - 1) as nat);
    }
}

fn no_color_texts() -> (c: [String; 3])
    ensures
        texts(c@) == no_color(),
{
    let c = ["0".to_owned(), "0".to_owned(), "0".to_owned()];
    assert(texts(c@) =~= no_color());
    c
}

struct MtlReader {
    name: Option<String>,
    ambient_color: [String; 3],
    specular_color: [String; 3],
    diffuse_color: [String; 3],
    diffuse_color_map: Option<String>,
    materials: Vec<ObjMaterial>,
}

impl View for MtlReader {
    type V = MtlReadModel;

    closed spec fn view(&self) -> MtlReadModel {
        MtlReadModel {
            name: opt_text(self.name),
            ambient_color: texts(self.ambient_color@),
            specular_color: texts(self.specular_color@),
            diffuse_color: texts(self.diffuse_color@),
            diffuse_color_map: opt_text(self.diffuse_color_map),
            materials: material_views(self.materials@),
        }
    }
}

/// The three component texts read from a color line.
fn color_of(v: &Vec<String>) -> (c: [String; 3])
    requires
        v@.len() == 3,
    ensures
        texts(c@) == texts(v@),
{
    let c = [v[0].clone(), v[1].clone(), v[2].clone()];
    assert(texts(c@) =~= texts(v@));
    c
}

impl MtlReader {
    fn new() -> (r: MtlReader)
        ensures
            r@ == mtl_start(),
    {
        let r = MtlReader {
            name: None,
            ambient_color: no_color_texts(),
            specular_color: no_color_texts(),
            diffuse_color: no_color_texts(),
            diffuse_color_map: None,
            materials: Vec::new(),
        };
        assert(r@.materials =~= seq![]);
        r
    }

    fn close_material(&mut self)
        ensures
            final(self)@ == close_material(old(self)@),
    {
        let name = match self.name.take() {
            None => {
                return;
            },
            Some(n) => n,
        };
        let mut ambient_color = no_color_texts();
        let mut specular_color = no_color_texts();
        let mut diffuse_color = no_color_texts();
        std::mem::swap(&mut ambient_color, &mut self.ambient_color);
        std::mem::swap(&mut specular_color, &mut self.specular_color);
        std::mem::swap(&mut diffuse_color, &mut self.diffuse_color);
        let diffuse_color_map = self.diffuse_color_map.take();
        let m = ObjMaterial { name, ambient_color, specular_color, diffuse_color, diffuse_color_map };
        let ghost before = self.materials@;
        self.materials.push(m);
        assert(material_views(self.materials@) =~= material_views(before).push(m@));
    }

    fn read_line(&mut self, line_no: usize, raw: &[char]) -> (r: Result<(), String>)
        ensures
            match mtl_step(old(self)@, line_no as nat, raw@) {
                Ok(st) => r is Ok && final(self)@ == st,
                Err(m) => r matches Err(e) && e@ == m,
            },
    {
        let line = trim_chars(raw);
        if line.len() > 0 && line[0] == '#' {
            return Ok(());
        }
        let parts = split_once_chars(line.as_slice(), ' ');
        match parts {
            None => Ok(()),
            Some((key, data)) => {
                let ghost i = choose|i: int|
                    0 <= i < line@.len() && line@[i] == ' ' && (forall|j: int| 0 <= j < i ==> line@[j] != ' ')
                        && key@ == line@.take(i) && data@ == line@.skip(i + 1);
                proof {
                    lemma_first_index_of(line@, ' ', i);
                }
                if chars_equal(key.as_slice(), "newmtl") {
                    self.close_material();
                    self.name = Some(trimmed_string(data.as_slice()));
                    Ok(())
                } else if chars_equal(key.as_slice(), "Ka") {
                    match try_parse_numbers(data.as_slice(), 3) {
                        None => Err(line_error_message("Unable to parse Ka on line ", line_no, data.as_slice())),
                        Some(v) => {
                            self.ambient_color = color_of(&v);
                            Ok(())
                        },
                    }
                } else if chars_equal(key.as_slice(), "Ks") {
                    match try_parse_numbers(data.as_slice(), 3) {
                        None => Err(line_error_message("Unable to parse Ks on line ", line_no, data.as_slice())),
                        Some(v) => {
                            self.specular_color = color_of(&v);
                            Ok(())
                        },
                    }
                } else if chars_equal(key.as_slice(), "Kd") {
                    match try_parse_numbers(data.as_slice(), 3) {
                        None => Err(line_error_message("Unable to parse Kd on line ", line_no, data.as_slice())),
                        Some(v) => {
                            self.diffuse_color = color_of(&v);
                            Ok(())
                        },
                    }
                } else if chars_equal(key.as_slice(), "map_Kd") {
                    self.diffuse_color_map = Some(trimmed_string(data.as_slice()));
                    Ok(())
                } else {
                    Ok(())
                }
            },
        }
    }
}

/// Reads the text of an MTL file: the `newmtl`, `Ka`, `Ks`, `Kd` and `map_Kd`
/// directives of its lines. Fails with the message of the first color line
/// that could not be read.
pub fn parse_mtl_file(text: &str) -> (r: Result<MtlFile, crate::obj_file::ObjError>)
    ensures
        match mtl_file_result(text@) {
            Ok(ms) => r matches Ok(file) && file@ == ms,
            Err(m) => r matches Err(crate::obj_file::ObjError::General(e)) && e@ == m,
        },
{
    let lines = lines_of(text);
    let ghost ls = text_lines(text@);
    let mut reader = MtlReader::new();
    let mut i: usize = 0;
    while i < lines.len()
        invariant
            i <= lines@.len(),
            views(lines@) == ls,
            ls == text_lines(text@),
            mtl_read(ls, i as nat) == Ok::<MtlReadModel, Seq<char>>(reader@),
        decreases lines@.len() - i,
    {
        assert(ls[i as int] == lines@[i as int]@);
        let ghost before = reader@;
        match reader.read_line(i, lines[i].as_slice()) {
            Ok(()) => {},
            Err(e) => {
                proof {
                    assert(mtl_read(ls, (i + 1) as nat) == mtl_step(before, i as nat, ls[i as int]));
                    lemma_mtl_read_error_stays(ls, (i + 1) as nat, ls.len());
                }
                return Err(crate::obj_file::ObjError::General(e));
            },
        }
        i += 1;
    }
    reader.close_material();
    Ok(MtlFile { materials: reader.materials })
}

} // verus!
