//! What reading a Gmsh MSH file (ASCII, format 2.2 or 4.1) yields, stated
//! over the file's lines.
use vstd::prelude::*;

use crate::element::{spec_from_gmsh_type_id, ElementType, ElementView};
use crate::mesh::{MeshView, PointView};
use crate::text::{is_float_literal, lines_of, parse_i32, parse_u64, parse_usize, split_ws, trim};

verus! {

/// The mathematical value of an MSH error.
pub enum MshErrorView {
    Parse { line: nat, message: Seq<char> },
    UnsupportedVersion(Seq<char>),
    UnsupportedElementType(ElementType),
    MissingNode(u64),
}

/// The two MSH format generations.
#[derive(PartialEq, Eq, Structural, Clone, Copy)]
pub enum MshVersion {
    V2,
    V4,
}

// ─── Keywords ────────────────────────────────────────────────────────────────

pub open spec fn kw_mesh_format() -> Seq<char> {
    seq!['$', 'M', 'e', 's', 'h', 'F', 'o', 'r', 'm', 'a', 't']
}

pub open spec fn kw_end_mesh_format() -> Seq<char> {
    seq!['$', 'E', 'n', 'd', 'M', 'e', 's', 'h', 'F', 'o', 'r', 'm', 'a', 't']
}

pub open spec fn kw_physical_names() -> Seq<char> {
    seq!['$', 'P', 'h', 'y', 's', 'i', 'c', 'a', 'l', 'N', 'a', 'm', 'e', 's']
}

pub open spec fn kw_end_physical_names() -> Seq<char> {
    seq!['$', 'E', 'n', 'd', 'P', 'h', 'y', 's', 'i', 'c', 'a', 'l', 'N', 'a', 'm', 'e', 's']
}

pub open spec fn kw_nodes() -> Seq<char> {
    seq!['$', 'N', 'o', 'd', 'e', 's']
}

pub open spec fn kw_end_nodes() -> Seq<char> {
    seq!['$', 'E', 'n', 'd', 'N', 'o', 'd', 'e', 's']
}

pub open spec fn kw_elements() -> Seq<char> {
    seq!['$', 'E', 'l', 'e', 'm', 'e', 'n', 't', 's']
}

pub open spec fn kw_end_elements() -> Seq<char> {
    seq!['$', 'E', 'n', 'd', 'E', 'l', 'e', 'm', 'e', 'n', 't', 's']
}

pub open spec fn kw_end() -> Seq<char> {
    seq!['$', 'E', 'n', 'd']
}

/// `s` begins with `p`.
pub open spec fn starts_with(s: Seq<char>, p: Seq<char>) -> bool {
    p.len() <= s.len() && s.take(p.len() as int) == p
}

// ─── Errors ──────────────────────────────────────────────────────────────────

/// The error for a line that is missing: the file ends before line `i + 1`.
pub open spec fn eof_err(i: int) -> MshErrorView {
    MshErrorView::Parse { line: (i + 1) as nat, message: "Unexpected end of file"@ }
}

/// A parse error at the line with index `i` (line number `i + 1`).
pub open spec fn perr(i: int, message: Seq<char>) -> MshErrorView {
    MshErrorView::Parse { line: (i + 1) as nat, message }
}

/// The line at index `i`, which must close a section with `kw`.
pub open spec fn end_check(
    lines: Seq<Seq<char>>,
    i: int,
    kw: Seq<char>,
    message: Seq<char>,
    m: MeshView,
) -> Result<(MeshView, int), MshErrorView> {
    if i >= lines.len() {
        Err(eof_err(i))
    } else if trim(lines[i]) != kw {
        Err(perr(i, message))
    } else {
        Ok((m, i + 1))
    }
}

/// The words of the line at index `i`, after trimming it.
pub open spec fn words(lines: Seq<Seq<char>>, i: int) -> Seq<Seq<char>> {
    split_ws(trim(lines[i]))
}

// ─── $MeshFormat ─────────────────────────────────────────────────────────────

/// The format section whose first line after the keyword has index `p`:
/// the version it announces and the index after it.
pub open spec fn spec_format(lines: Seq<Seq<char>>, p: int) -> Result<(MshVersion, int), MshErrorView> {
    if p >= lines.len() {
        Err(eof_err(p))
    } else {
        let parts = words(lines, p);
        if parts.len() == 0 {
            Err(perr(p, "Empty format line"@))
        } else {
            let v = parts[0];
            if !starts_with(v, seq!['2', '.']) && !starts_with(v, seq!['4', '.']) {
                Err(MshErrorView::UnsupportedVersion(v))
            } else {
                let ver = if starts_with(v, seq!['2', '.']) {
                    MshVersion::V2
                } else {
                    MshVersion::V4
                };
                if p + 1 >= lines.len() {
                    Err(eof_err(p + 1))
                } else if trim(lines[p + 1]) != kw_end_mesh_format() {
                    Err(perr(p + 1, "Expected $EndMeshFormat"@))
                } else {
                    Ok((ver, p + 2))
                }
            }
        }
    }
}

// ─── $PhysicalNames ──────────────────────────────────────────────────────────

/// The index of the first `c` in `s`.
pub open spec fn find_char(s: Seq<char>, c: char) -> Option<nat>
    decreases s.len(),
{
    if s.len() == 0 {
        None
    } else if s[0] == c {
        Some(0)
    } else {
        match find_char(s.drop_first(), c) {
            Some(i) => Some(i + 1),
            None => None,
        }
    }
}

/// The three fields of a physical name line split at its first two
/// spaces, the third holding the rest; `None` when it has fewer than two.
pub open spec fn name_fields(t: Seq<char>) -> Option<(Seq<char>, Seq<char>, Seq<char>)> {
    match find_char(t, ' ') {
        None => None,
        Some(i) => {
            let r = t.skip(i + 1int);
            match find_char(r, ' ') {
                None => None,
                Some(j) => Some((t.take(i as int), r.take(j as int), r.skip(j + 1int))),
            }
        },
    }
}

/// `s` with its leading double quotes removed.
pub open spec fn trim_quotes_start(s: Seq<char>) -> Seq<char>
    decreases s.len(),
{
    if s.len() > 0 && s[0] == '"' {
        trim_quotes_start(s.drop_first())
    } else {
        s
    }
}

/// `s` with its trailing double quotes removed.
pub open spec fn trim_quotes_end(s: Seq<char>) -> Seq<char>
    decreases s.len(),
{
    if s.len() > 0 && s.last() == '"' {
        trim_quotes_end(s.drop_last())
    } else {
        s
    }
}

/// `s` with leading and trailing double quotes removed.
pub open spec fn trim_quotes(s: Seq<char>) -> Seq<char> {
    trim_quotes_end(trim_quotes_start(s))
}

/// The mesh after reading one physical name line.
pub open spec fn apply_name_line(line: Seq<char>, m: MeshView) -> MeshView {
    match name_fields(trim(line)) {
        None => m,
        Some((d, t, n)) => {
            let dim = match parse_i32(d) {
                Some(v) => v,
                None => 0,
            };
            let tag = match parse_i32(t) {
                Some(v) => v,
                None => 0,
            };
            MeshView { physical_names: m.physical_names.insert((dim, tag), trim_quotes(n)), ..m }
        },
    }
}

/// Reading `c` more physical name lines from index `i`, then the end line.
pub open spec fn names_loop(lines: Seq<Seq<char>>, i: int, c: nat, m: MeshView) -> Result<
    (MeshView, int),
    MshErrorView,
>
    decreases c,
{
    if c == 0 {
        end_check(lines, i, kw_end_physical_names(), "Expected $EndPhysicalNames"@, m)
    } else if i >= lines.len() {
        Err(eof_err(i))
    } else {
        names_loop(lines, i + 1, (c - 1) as nat, apply_name_line(lines[i], m))
    }
}

/// The physical names section whose count line has index `p`.
pub open spec fn spec_names(lines: Seq<Seq<char>>, p: int, m: MeshView) -> Result<
    (MeshView, int),
    MshErrorView,
> {
    if p >= lines.len() {
        Err(eof_err(p))
    } else {
        match parse_usize(trim(lines[p])) {
            None => Err(perr(p, "Invalid physical names count"@)),
            Some(c) => names_loop(lines, p + 1, c as nat, m),
        }
    }
}

// ─── $Nodes ──────────────────────────────────────────────────────────────────

/// A mesh with one more node.
pub open spec fn with_node(m: MeshView, id: u64, p: PointView) -> MeshView {
    MeshView { nodes: m.nodes.insert(id, p), ..m }
}

/// A mesh with one more element.
pub open spec fn with_element(m: MeshView, e: ElementView) -> MeshView {
    MeshView { elements: m.elements.push(e), ..m }
}

/// Reading `c` more format-2 node lines from index `i`, then the end line.
pub open spec fn nodes_v2_loop(lines: Seq<Seq<char>>, i: int, c: nat, m: MeshView) -> Result<
    (MeshView, int),
    MshErrorView,
>
    decreases c,
{
    if c == 0 {
        end_check(lines, i, kw_end_nodes(), "Expected $EndNodes"@, m)
    } else if i >= lines.len() {
        Err(eof_err(i))
    } else {
        let parts = words(lines, i);
        if parts.len() < 4 {
            Err(perr(i, "Invalid node line, expected: tag x y z"@))
        } else {
            match parse_u64(parts[0]) {
                None => Err(perr(i, "Invalid node tag"@)),
                Some(tag) => if !is_float_literal(parts[1]) {
                    Err(perr(i, "Invalid node x coordinate"@))
                } else if !is_float_literal(parts[2]) {
                    Err(perr(i, "Invalid node y coordinate"@))
                } else if !is_float_literal(parts[3]) {
                    Err(perr(i, "Invalid node z coordinate"@))
                } else {
                    nodes_v2_loop(
                        lines,
                        i + 1,
                        (c - 1) as nat,
                        with_node(m, tag, (parts[1], parts[2], parts[3])),
                    )
                },
            }
        }
    }
}

/// The format-2 nodes section whose count line has index `p`.
pub open spec fn spec_nodes_v2(lines: Seq<Seq<char>>, p: int, m: MeshView) -> Result<
    (MeshView, int),
    MshErrorView,
> {
    if p >= lines.len() {
        Err(eof_err(p))
    } else {
        match parse_usize(trim(lines[p])) {
            None => Err(perr(p, "Invalid node count"@)),
            Some(c) => nodes_v2_loop(lines, p + 1, c as nat, m),
        }
    }
}

/// A `usize` read from `s`, zero when `s` does not hold one.
pub open spec fn usize_or_zero(s: Seq<char>) -> usize {
    match parse_usize(s) {
        Some(v) => v,
        None => 0,
    }
}

/// An `i32` read from `s`, zero when `s` does not hold one.
pub open spec fn i32_or_zero(s: Seq<char>) -> i32 {
    match parse_i32(s) {
        Some(v) => v,
        None => 0,
    }
}

/// Reading `n` node tag lines from index `i`.
pub open spec fn read_tags(lines: Seq<Seq<char>>, i: int, n: nat) -> Result<Seq<u64>, MshErrorView>
    decreases n,
{
    if n == 0 {
        Ok(seq![])
    } else if i >= lines.len() {
        Err(eof_err(i))
    } else {
        match parse_u64(trim(lines[i])) {
            None => Err(perr(i, "Invalid node tag"@)),
            Some(t) => match read_tags(lines, i + 1, (n - 1) as nat) {
                Ok(r) => Ok(seq![t] + r),
                Err(e) => Err(e),
            },
        }
    }
}

/// The words of `ws` that are floating-point literals, in order.
pub open spec fn float_words(ws: Seq<Seq<char>>) -> Seq<Seq<char>>
    decreases ws.len(),
{
    if ws.len() == 0 {
        seq![]
    } else {
        let r = float_words(ws.drop_last());
        if is_float_literal(ws.last()) {
            r.push(ws.last())
        } else {
            r
        }
    }
}

/// Reading one coordinate line for each tag of `tags`, from index `i`; a
/// line with fewer than three numbers adds no node.
pub open spec fn read_coords(lines: Seq<Seq<char>>, i: int, tags: Seq<u64>, m: MeshView) -> Result<
    MeshView,
    MshErrorView,
>
    decreases tags.len(),
{
    if tags.len() == 0 {
        Ok(m)
    } else if i >= lines.len() {
        Err(eof_err(i))
    } else {
        let c = float_words(words(lines, i));
        let m2 = if c.len() >= 3 {
            with_node(m, tags[0], (c[0], c[1], c[2]))
        } else {
            m
        };
        read_coords(lines, i + 1, tags.drop_first(), m2)
    }
}

/// Reading `nb` more format-4 node blocks from index `i`, then the end line.
pub open spec fn node_blocks_v4(lines: Seq<Seq<char>>, i: int, nb: nat, m: MeshView) -> Result<
    (MeshView, int),
    MshErrorView,
>
    decreases nb,
{
    if nb == 0 {
        end_check(lines, i, kw_end_nodes(), "Expected $EndNodes"@, m)
    } else if i >= lines.len() {
        Err(eof_err(i))
    } else {
        let bp = words(lines, i);
        if bp.len() < 4 {
            Err(perr(i, "Invalid node block header"@))
        } else {
            let n = usize_or_zero(bp[3]) as nat;
            match read_tags(lines, i + 1, n) {
                Err(e) => Err(e),
                Ok(tags) => match read_coords(lines, i + 1 + n, tags, m) {
                    Err(e) => Err(e),
                    Ok(m2) => node_blocks_v4(lines, i + 1 + 2 * n, (nb - 1) as nat, m2),
                },
            }
        }
    }
}

/// The format-4 nodes section whose header line has index `p`.
pub open spec fn spec_nodes_v4(lines: Seq<Seq<char>>, p: int, m: MeshView) -> Result<
    (MeshView, int),
    MshErrorView,
> {
    if p >= lines.len() {
        Err(eof_err(p))
    } else {
        let parts = words(lines, p);
        if parts.len() < 4 {
            Err(perr(p, "Invalid nodes header"@))
        } else {
            node_blocks_v4(lines, p + 1, usize_or_zero(parts[0]) as nat, m)
        }
    }
}

// ─── $Elements ───────────────────────────────────────────────────────────────

/// Every word of `ws` read as a `u64`, or `None` if one is not one.
pub open spec fn all_u64(ws: Seq<Seq<char>>) -> Option<Seq<u64>>
    decreases ws.len(),
{
    if ws.len() == 0 {
        Some(seq![])
    } else {
        match all_u64(ws.drop_last()) {
            None => None,
            Some(r) => match parse_u64(ws.last()) {
                None => None,
                Some(v) => Some(r.push(v)),
            },
        }
    }
}

/// The words of `ws` that are `u64` numbers, read, in order.
pub open spec fn some_u64(ws: Seq<Seq<char>>) -> Seq<u64>
    decreases ws.len(),
{
    if ws.len() == 0 {
        seq![]
    } else {
        let r = some_u64(ws.drop_last());
        match parse_u64(ws.last()) {
            Some(v) => r.push(v),
            None => r,
        }
    }
}

/// Reading `c` more format-2 element lines from index `i`, then the end line.
pub open spec fn elements_v2_loop(lines: Seq<Seq<char>>, i: int, c: nat, m: MeshView) -> Result<
    (MeshView, int),
    MshErrorView,
>
    decreases c,
{
    if c == 0 {
        end_check(lines, i, kw_end_elements(), "Expected $EndElements"@, m)
    } else if i >= lines.len() {
        Err(eof_err(i))
    } else {
        let parts = words(lines, i);
        if parts.len() < 3 {
            Err(perr(i, "Invalid element line"@))
        } else {
            match parse_u64(parts[0]) {
                None => Err(perr(i, "Invalid element tag"@)),
                Some(tag) => match parse_i32(parts[1]) {
                    None => Err(perr(i, "Invalid element type"@)),
                    Some(t) => match parse_usize(parts[2]) {
                        None => Err(perr(i, "Invalid number of tags"@)),
                        Some(nt) => if parts.len() < 3 + nt {
                            Err(perr(i, "Element line too short for tags"@))
                        } else {
                            match all_u64(parts.skip(3 + nt)) {
                                None => Err(perr(i, "Invalid node id in element"@)),
                                Some(ids) => elements_v2_loop(
                                    lines,
                                    i + 1,
                                    (c - 1) as nat,
                                    with_element(
                                        m,
                                        ElementView {
                                            id: tag,
                                            etype: spec_from_gmsh_type_id(t),
                                            physical_tag: None,
                                            node_ids: ids,
                                        },
                                    ),
                                ),
                            }
                        },
                    },
                },
            }
        }
    }
}

/// The format-2 elements section whose count line has index `p`.
pub open spec fn spec_elements_v2(lines: Seq<Seq<char>>, p: int, m: MeshView) -> Result<
    (MeshView, int),
    MshErrorView,
> {
    if p >= lines.len() {
        Err(eof_err(p))
    } else {
        match parse_usize(trim(lines[p])) {
            None => Err(perr(p, "Invalid element count"@)),
            Some(c) => elements_v2_loop(lines, p + 1, c as nat, m),
        }
    }
}

/// Reading `n` element lines of type `et` from index `i`: the index after
/// them and the mesh; a line with no number adds no element.
pub open spec fn element_lines_v4(
    lines: Seq<Seq<char>>,
    i: int,
    n: nat,
    et: ElementType,
    m: MeshView,
) -> Result<(MeshView, int), MshErrorView>
    decreases n,
{
    if n == 0 {
        Ok((m, i))
    } else if i >= lines.len() {
        Err(eof_err(i))
    } else {
        let vals = some_u64(words(lines, i));
        let m2 = if vals.len() == 0 {
            m
        } else {
            with_element(
                m,
                ElementView { id: vals[0], etype: et, physical_tag: None, node_ids: vals.drop_first() },
            )
        };
        element_lines_v4(lines, i + 1, (n - 1) as nat, et, m2)
    }
}

/// Reading `nb` more format-4 element blocks from index `i`, then the end
/// line.
pub open spec fn element_blocks_v4(lines: Seq<Seq<char>>, i: int, nb: nat, m: MeshView) -> Result<
    (MeshView, int),
    MshErrorView,
>
    decreases nb,
{
    if nb == 0 {
        end_check(lines, i, kw_end_elements(), "Expected $EndElements"@, m)
    } else if i >= lines.len() {
        Err(eof_err(i))
    } else {
        let bp = words(lines, i);
        if bp.len() < 4 {
            Err(perr(i, "Invalid element block header"@))
        } else {
            let et = spec_from_gmsh_type_id(i32_or_zero(bp[2]));
            match element_lines_v4(lines, i + 1, usize_or_zero(bp[3]) as nat, et, m) {
                Err(e) => Err(e),
                Ok((m2, j)) => element_blocks_v4(lines, j, (nb - 1) as nat, m2),
            }
        }
    }
}

/// The format-4 elements section whose header line has index `p`.
pub open spec fn spec_elements_v4(lines: Seq<Seq<char>>, p: int, m: MeshView) -> Result<
    (MeshView, int),
    MshErrorView,
> {
    if p >= lines.len() {
        Err(eof_err(p))
    } else {
        let parts = words(lines, p);
        if parts.len() < 4 {
            Err(perr(p, "Invalid elements header"@))
        } else {
            element_blocks_v4(lines, p + 1, usize_or_zero(parts[0]) as nat, m)
        }
    }
}

// ─── Other sections and the whole file ───────────────────────────────────────

/// The index after the first line from index `i` whose trimmed text is
/// `tag`, if there is one.
pub open spec fn skip_to(lines: Seq<Seq<char>>, i: int, tag: Seq<char>) -> Option<int>
    decreases lines.len() - i,
{
    if i >= lines.len() {
        None
    } else if trim(lines[i]) == tag {
        Some(i + 1)
    } else {
        skip_to(lines, i + 1, tag)
    }
}

/// The section that a line opens: a section of its own, one to skip, or
/// none.
pub open spec fn opens_unknown_section(t: Seq<char>) -> bool {
    t.len() > 0 && t[0] == '$' && !starts_with(t, kw_end())
}

/// What the section at index `pos` gives: the version, the mesh and the
/// index after it.
pub open spec fn spec_section(lines: Seq<Seq<char>>, pos: int, ver: MshVersion, m: MeshView) -> Result<
    (MshVersion, MeshView, int),
    MshErrorView,
> {
    let t = trim(lines[pos]);
    if t == kw_mesh_format() {
        match spec_format(lines, pos + 1) {
            Err(e) => Err(e),
            Ok((v, nxt)) => Ok((v, m, nxt)),
        }
    } else if t == kw_physical_names() {
        match spec_names(lines, pos + 1, m) {
            Err(e) => Err(e),
            Ok((m2, nxt)) => Ok((ver, m2, nxt)),
        }
    } else if t == kw_nodes() {
        match if ver == MshVersion::V2 {
            spec_nodes_v2(lines, pos + 1, m)
        } else {
            spec_nodes_v4(lines, pos + 1, m)
        } {
            Err(e) => Err(e),
            Ok((m2, nxt)) => Ok((ver, m2, nxt)),
        }
    } else if t == kw_elements() {
        match if ver == MshVersion::V2 {
            spec_elements_v2(lines, pos + 1, m)
        } else {
            spec_elements_v4(lines, pos + 1, m)
        } {
            Err(e) => Err(e),
            Ok((m2, nxt)) => Ok((ver, m2, nxt)),
        }
    } else if opens_unknown_section(t) {
        match skip_to(lines, pos + 1, kw_end() + t.drop_first()) {
            None => Err(eof_err(lines.len() as int)),
            Some(nxt) => Ok((ver, m, nxt)),
        }
    } else {
        Ok((ver, m, pos + 1))
    }
}

/// Reading the lines from index `pos` on, with version `ver` and mesh `m`
/// so far.
pub open spec fn parse_from(lines: Seq<Seq<char>>, pos: int, ver: MshVersion, m: MeshView) -> Result<
    MeshView,
    MshErrorView,
>
    decreases lines.len() - pos,
{
    if pos < 0 || pos >= lines.len() {
        Ok(m)
    } else {
        match spec_section(lines, pos, ver, m) {
            Err(e) => Err(e),
            Ok((v, m2, nxt)) => if pos < nxt <= lines.len() {
                parse_from(lines, nxt, v, m2)
            } else {
                Ok(m2)
            },
        }
    }
}

/// The empty mesh.
pub open spec fn empty_mesh() -> MeshView {
    MeshView { nodes: Map::empty(), elements: seq![], physical_names: Map::empty() }
}

/// What reading the MSH text `text` gives.
pub open spec fn spec_parse_msh(text: Seq<char>) -> Result<MeshView, MshErrorView> {
    parse_from(lines_of(text), 0, MshVersion::V4, empty_mesh())
}

// ─── Progress ────────────────────────────────────────────────────────────────

/// A section that reads its lines in a loop ends after its start, within the
/// file.
pub proof fn lemma_loops_progress(lines: Seq<Seq<char>>, i: int, c: nat, m: MeshView)
    ensures
        names_loop(lines, i, c, m) matches Ok((_, n)) ==> i < n <= lines.len(),
        nodes_v2_loop(lines, i, c, m) matches Ok((_, n)) ==> i < n <= lines.len(),
        elements_v2_loop(lines, i, c, m) matches Ok((_, n)) ==> i < n <= lines.len(),
        node_blocks_v4(lines, i, c, m) matches Ok((_, n)) ==> i < n <= lines.len(),
        element_blocks_v4(lines, i, c, m) matches Ok((_, n)) ==> i < n <= lines.len(),
    decreases c,
{
    if c > 0 && i < lines.len() {
        lemma_loops_progress(lines, i + 1, (c - 1) as nat, apply_name_line(lines[i], m));
        let parts = words(lines, i);
        if parts.len() >= 4 {
            if let Some(tag) = parse_u64(parts[0]) {
                lemma_loops_progress(
                    lines,
                    i + 1,
                    (c - 1) as nat,
                    with_node(m, tag, (parts[1], parts[2], parts[3])),
                );
            }
        }
        if parts.len() >= 3 {
            if let (Some(tag), Some(t), Some(nt)) = (
                parse_u64(parts[0]),
                parse_i32(parts[1]),
                parse_usize(parts[2]),
            ) {
                if parts.len() >= 3 + nt {
                    if let Some(ids) = all_u64(parts.skip(3 + nt)) {
                        lemma_loops_progress(
                            lines,
                            i + 1,
                            (c - 1) as nat,
                            with_element(
                                m,
                                ElementView {
                                    id: tag,
                                    etype: spec_from_gmsh_type_id(t),
                                    physical_tag: None,
                                    node_ids: ids,
                                },
                            ),
                        );
                    }
                }
            }
        }
        if parts.len() >= 4 {
            let n = usize_or_zero(parts[3]) as nat;
            if let Ok(tags) = read_tags(lines, i + 1, n) {
                if let Ok(m2) = read_coords(lines, i + 1 + n, tags, m) {
                    lemma_loops_progress(lines, i + 1 + 2 * n, (c - 1) as nat, m2);
                }
            }
            let et = spec_from_gmsh_type_id(i32_or_zero(parts[2]));
            lemma_element_lines_progress(lines, i + 1, n, et, m);
            if let Ok((m2, j)) = element_lines_v4(lines, i + 1, n, et, m) {
                lemma_loops_progress(lines, j, (c - 1) as nat, m2);
            }
        }
    }
}

/// Reading element lines ends at or after its start.
pub proof fn lemma_element_lines_progress(
    lines: Seq<Seq<char>>,
    i: int,
    n: nat,
    et: ElementType,
    m: MeshView,
)
    ensures
        element_lines_v4(lines, i, n, et, m) matches Ok((_, j)) ==> i <= j && (i <= lines.len()
            ==> j <= lines.len()),
    decreases n,
{
    if n > 0 && i < lines.len() {
        let vals = some_u64(words(lines, i));
        let m2 = if vals.len() == 0 {
            m
        } else {
            with_element(
                m,
                ElementView { id: vals[0], etype: et, physical_tag: None, node_ids: vals.drop_first() },
            )
        };
        lemma_element_lines_progress(lines, i + 1, (n - 1) as nat, et, m2);
    }
}

/// Skipping a section ends after its start, within the file.
pub proof fn lemma_skip_progress(lines: Seq<Seq<char>>, i: int, tag: Seq<char>)
    ensures
        skip_to(lines, i, tag) matches Some(k) ==> i < k <= lines.len(),
    decreases lines.len() - i,
{
    if i < lines.len() && trim(lines[i]) != tag {
        lemma_skip_progress(lines, i + 1, tag);
    }
}

/// Every section ends after the line that opens it, within the file.
pub proof fn lemma_section_progress(lines: Seq<Seq<char>>, pos: int, ver: MshVersion, m: MeshView)
    requires
        0 <= pos < lines.len(),
    ensures
        spec_section(lines, pos, ver, m) matches Ok((_, _, n)) ==> pos < n <= lines.len(),
{
    let p = pos + 1;
    if p < lines.len() {
        if let Some(c) = parse_usize(trim(lines[p])) {
            lemma_loops_progress(lines, p + 1, c as nat, m);
        }
        let parts = words(lines, p);
        if parts.len() >= 4 {
            lemma_loops_progress(lines, p + 1, usize_or_zero(parts[0]) as nat, m);
        }
    }
    let t = trim(lines[pos]);
    lemma_skip_progress(lines, pos + 1, kw_end() + t.drop_first());
}

} // verus!
