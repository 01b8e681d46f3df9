//! Reading and writing Gmsh MSH files (ASCII, format 2.2 and 4.1).
use vstd::prelude::*;
use vstd::std_specs::iter::IteratorSpec;

use crate::element::{spec_from_gmsh_type_id, Element, ElementType, ElementView};
use crate::mesh::{Mesh, MeshView, Node};
use crate::msh_spec::{
    all_u64, lemma_section_progress, apply_name_line, some_u64, opens_unknown_section, find_char, kw_elements, kw_end, kw_end_elements, kw_end_mesh_format,
    kw_end_nodes, kw_end_physical_names, kw_mesh_format, kw_nodes, kw_physical_names, trim_quotes,
    trim_quotes_end, trim_quotes_start, element_blocks_v4, element_lines_v4, elements_v2_loop, empty_mesh, end_check, eof_err,
    float_words, names_loop, node_blocks_v4, nodes_v2_loop, parse_from, perr, read_coords,
    read_tags, skip_to, spec_elements_v2, spec_elements_v4, spec_format, spec_names,
    spec_nodes_v2, spec_nodes_v4, spec_parse_msh, spec_section, words, MshErrorView, MshVersion,
};
use crate::text::{
    is_float_literal, is_float_literal_range, line_ranges, lines_of, parse_i32, parse_i32_range, parse_u64,
    parse_u64_range, parse_usize, parse_usize_range, range_eq, range_starts_with, range_string,
    ranges_view, ranges_within, split_whitespace_ranges, trim, trim_range,
};

verus! {

/// Errors of reading or writing an MSH file.
#[derive(Debug)]
pub enum MshError {
    /// The text does not follow the format at line `line`.
    Parse { line: usize, message: String },
    /// The format line announces a version other than 2 or 4.
    UnsupportedVersion(String),
    /// An element of this type cannot be written.
    UnsupportedElementType(ElementType),
    /// An element references a node that the mesh does not have.
    MissingNode(u64),
}

impl View for MshError {
    type V = MshErrorView;

    open spec fn view(&self) -> MshErrorView {
        match self {
            MshError::Parse { line, message } => MshErrorView::Parse {
                line: *line as nat,
                message: message@,
            },
            MshError::UnsupportedVersion(v) => MshErrorView::UnsupportedVersion(v@),
            MshError::UnsupportedElementType(t) => MshErrorView::UnsupportedElementType(*t),
            MshError::MissingNode(n) => MshErrorView::MissingNode(*n),
        }
    }
}

/// `r` is the result that `s` describes for a section read into `m`.
pub open spec fn section_matches(
    r: Result<usize, MshError>,
    m: Mesh,
    s: Result<(MeshView, int), MshErrorView>,
) -> bool {
    match s {
        Ok((m2, nxt)) => r matches Ok(k) && k == nxt && m@ == m2 && m.wf(),
        Err(e) => r matches Err(x) && x@ == e,
    }
}

/// A parse error at the line with index `i`.
fn parse_error(i: usize, message: &str) -> (e: MshError)
    requires
        i < usize::MAX,
    ensures
        e@ == perr(i as int, message@),
{
    MshError::Parse { line: i + 1, message: String::from_str(message) }
}

/// The error for a file that ends before the line with index `i`.
fn eof_error(i: usize) -> (e: MshError)
    requires
        i < usize::MAX,
    ensures
        e@ == eof_err(i as int),
{
    MshError::Parse { line: i + 1, message: String::from_str("Unexpected end of file") }
}

/// The text of a file and the ranges of its lines.
struct Reader {
    text: Vec<char>,
    lines: Vec<(usize, usize)>,
}

impl Reader {
    /// The lines of the file.
    spec fn ls(&self) -> Seq<Seq<char>> {
        ranges_view(self.text@, self.lines@)
    }

    spec fn inv(&self) -> bool {
        &&& forall|k: int|
            0 <= k < self.lines@.len() ==> (#[trigger] self.lines@[k]).0 <= self.lines@[k].1
                <= self.text@.len()
        &&& self.lines@.len() <= self.text@.len() < usize::MAX
        &&& self.ls().len() == self.lines@.len()
    }

    /// The bounds of the trimmed line with index `i`.
    fn trimmed(&self, i: usize) -> (r: (usize, usize))
        requires
            self.inv(),
            i < self.lines@.len(),
        ensures
            r.0 <= r.1 <= self.text@.len(),
            self.text@.subrange(r.0 as int, r.1 as int) == trim(self.ls()[i as int]),
    {
        let (a, b) = self.lines[i];
        trim_range(&self.text, a, b)
    }

    /// Whether the trimmed line with index `i` is `kw`.
    fn line_is(&self, i: usize, kw: &Vec<char>) -> (r: bool)
        requires
            self.inv(),
            i < self.lines@.len(),
        ensures
            r == (trim(self.ls()[i as int]) == kw@),
    {
        let (a, b) = self.trimmed(i);
        range_eq(&self.text, a, b, kw)
    }

    /// The words of the trimmed line with index `i`.
    fn words(&self, i: usize) -> (r: Vec<(usize, usize)>)
        requires
            self.inv(),
            i < self.lines@.len(),
        ensures
            ranges_view(self.text@, r@) == words(self.ls(), i as int),
            ranges_within(r@, 0, self.text@.len() as int),
    {
        let (a, b) = self.trimmed(i);
        split_whitespace_ranges(&self.text, a, b)
    }

    /// The check of the line that closes a section.
    fn end_line(&self, i: usize, kw: &Vec<char>, message: &str) -> (r: Result<usize, MshError>)
        requires
            self.inv(),
            i <= self.lines@.len(),
        ensures
            i >= self.ls().len() ==> (r matches Err(x) && x@ == eof_err(i as int)),
            i < self.ls().len() && trim(self.ls()[i as int]) != kw@ ==> (r matches Err(x) && x@
                == perr(i as int, message@)),
            i < self.ls().len() && trim(self.ls()[i as int]) == kw@ ==> (r matches Ok(k) && k == i + 1),
    {
        if i >= self.lines.len() {
            return Err(eof_error(i));
        }
        if !self.line_is(i, kw) {
            return Err(parse_error(i, message));
        }
        Ok(i + 1)
    }

    /// The format section whose format line has index `p`.
    fn format(&self, p: usize) -> (r: Result<(MshVersion, usize), MshError>)
        requires
            self.inv(),
            p <= self.lines@.len(),
        ensures
            match spec_format(self.ls(), p as int) {
                Ok((v, n)) => r matches Ok((v2, n2)) && v2 == v && n2 == n,
                Err(e) => r matches Err(x) && x@ == e,
            },
    {
        if p >= self.lines.len() {
            return Err(eof_error(p));
        }
        let parts = self.words(p);
        if parts.len() == 0 {
            return Err(parse_error(p, "Empty format line"));
        }
        let (a, b) = parts[0];
        let ghost pv = ranges_view(self.text@, parts@);
        assert(pv[0] == self.text@.subrange(a as int, b as int));
        let two = vec!['2', '.'];
        let four = vec!['4', '.'];
        assert(two@ =~= seq!['2', '.']);
        assert(four@ =~= seq!['4', '.']);
        let is2 = range_starts_with(&self.text, a, b, &two);
        let is4 = range_starts_with(&self.text, a, b, &four);
        if !is2 && !is4 {
            return Err(MshError::UnsupportedVersion(range_string(&self.text, a, b)));
        }
        let ver = if is2 {
            MshVersion::V2
        } else {
            MshVersion::V4
        };
        if p + 1 >= self.lines.len() {
            return Err(eof_error(p + 1));
        }
        if !self.line_is(p + 1, &kw_end_mesh_format_chars()) {
            return Err(parse_error(p + 1, "Expected $EndMeshFormat"));
        }
        Ok((ver, p + 2))
    }

    /// Reads the physical name line with index `i` into `mesh`.
    fn name_line(&self, i: usize, mesh: &mut Mesh)
        requires
            self.inv(),
            i < self.lines@.len(),
            old(mesh).wf(),
        ensures
            final(mesh).wf(),
            final(mesh)@ == apply_name_line(self.ls()[i as int], old(mesh)@),
    {
        let (a, b) = self.trimmed(i);
        let ghost t = self.text@.subrange(a as int, b as int);
        match find_char_range(&self.text, a, b, ' ') {
            None => {},
            Some(s1) => {
                assert(t.skip(s1 - a + 1) =~= self.text@.subrange(s1 + 1, b as int));
                match find_char_range(&self.text, s1 + 1, b, ' ') {
                    None => {},
                    Some(s2) => {
                        let ghost r = self.text@.subrange(s1 + 1, b as int);
                        assert(t.take(s1 - a) =~= self.text@.subrange(a as int, s1 as int));
                        assert(r.take(s2 - s1 - 1) =~= self.text@.subrange(s1 + 1, s2 as int));
                        assert(r.skip(s2 - s1 - 1 + 1) =~= self.text@.subrange(s2 + 1, b as int));
                        let dim = match parse_i32_range(&self.text, a, s1) {
                            Some(v) => v,
                            None => 0,
                        };
                        let tag = match parse_i32_range(&self.text, s1 + 1, s2) {
                            Some(v) => v,
                            None => 0,
                        };
                        let (qa, qb) = trim_quotes_range(&self.text, s2 + 1, b);
                        let name = range_string(&self.text, qa, qb);
                        mesh.insert_physical_name(dim, tag, name);
                    },
                }
            },
        }
    }

    /// The format-2 nodes section whose count line has index `p`.
    fn nodes_v2(&self, p: usize, mesh: &mut Mesh) -> (r: Result<usize, MshError>)
        requires
            self.inv(),
            p <= self.lines@.len(),
            old(mesh).wf(),
        ensures
            section_matches(r, *final(mesh), spec_nodes_v2(self.ls(), p as int, old(mesh)@)),
    {
        if p >= self.lines.len() {
            return Err(eof_error(p));
        }
        let (a, b) = self.trimmed(p);
        let c = match parse_usize_range(&self.text, a, b) {
            None => return Err(parse_error(p, "Invalid node count")),
            Some(c) => c,
        };
        let ghost goal = nodes_v2_loop(self.ls(), p + 1, c as nat, old(mesh)@);
        assert(spec_nodes_v2(self.ls(), p as int, old(mesh)@) == goal);
        let mut k: usize = 0;
        let mut i: usize = p + 1;
        while k < c
            invariant
                self.inv(),
                mesh.wf(),
                p < self.lines@.len(),
                i == p + 1 + k,
                k <= c,
                i <= self.lines@.len(),
                goal == nodes_v2_loop(self.ls(), i as int, (c - k) as nat, mesh@),
                spec_nodes_v2(self.ls(), p as int, old(mesh)@) == goal,
            decreases c - k,
        {
            if i >= self.lines.len() {
                return Err(eof_error(i));
            }
            let parts = self.words(i);
            let ghost pv = ranges_view(self.text@, parts@);
            if parts.len() < 4 {
                return Err(parse_error(i, "Invalid node line, expected: tag x y z"));
            }
            assert(pv[0] == self.text@.subrange(parts@[0].0 as int, parts@[0].1 as int));
            assert(pv[1] == self.text@.subrange(parts@[1].0 as int, parts@[1].1 as int));
            assert(pv[2] == self.text@.subrange(parts@[2].0 as int, parts@[2].1 as int));
            assert(pv[3] == self.text@.subrange(parts@[3].0 as int, parts@[3].1 as int));
            let tag = match parse_u64_range(&self.text, parts[0].0, parts[0].1) {
                None => return Err(parse_error(i, "Invalid node tag")),
                Some(t) => t,
            };
            if !is_float_literal_range(&self.text, parts[1].0, parts[1].1) {
                return Err(parse_error(i, "Invalid node x coordinate"));
            }
            if !is_float_literal_range(&self.text, parts[2].0, parts[2].1) {
                return Err(parse_error(i, "Invalid node y coordinate"));
            }
            if !is_float_literal_range(&self.text, parts[3].0, parts[3].1) {
                return Err(parse_error(i, "Invalid node z coordinate"));
            }
            let x = range_string(&self.text, parts[1].0, parts[1].1);
            let y = range_string(&self.text, parts[2].0, parts[2].1);
            let z = range_string(&self.text, parts[3].0, parts[3].1);
            mesh.add_node(Node::new(tag, x, y, z));
            i = i + 1;
            k = k + 1;
        }
        self.end_line(i, &kw_end_nodes_chars(), "Expected $EndNodes")
    }

    /// The format-2 elements section whose count line has index `p`.
    fn elements_v2(&self, p: usize, mesh: &mut Mesh) -> (r: Result<usize, MshError>)
        requires
            self.inv(),
            p <= self.lines@.len(),
            old(mesh).wf(),
        ensures
            section_matches(r, *final(mesh), spec_elements_v2(self.ls(), p as int, old(mesh)@)),
    {
        if p >= self.lines.len() {
            return Err(eof_error(p));
        }
        let (a, b) = self.trimmed(p);
        let c = match parse_usize_range(&self.text, a, b) {
            None => return Err(parse_error(p, "Invalid element count")),
            Some(c) => c,
        };
        let ghost goal = elements_v2_loop(self.ls(), p + 1, c as nat, old(mesh)@);
        assert(spec_elements_v2(self.ls(), p as int, old(mesh)@) == goal);
        let mut k: usize = 0;
        let mut i: usize = p + 1;
        while k < c
            invariant
                self.inv(),
                mesh.wf(),
                p < self.lines@.len(),
                i == p + 1 + k,
                k <= c,
                i <= self.lines@.len(),
                goal == elements_v2_loop(self.ls(), i as int, (c - k) as nat, mesh@),
                spec_elements_v2(self.ls(), p as int, old(mesh)@) == goal,
            decreases c - k,
        {
            if i >= self.lines.len() {
                return Err(eof_error(i));
            }
            let parts = self.words(i);
            let ghost pv = ranges_view(self.text@, parts@);
            if parts.len() < 3 {
                return Err(parse_error(i, "Invalid element line"));
            }
            assert(pv[0] == self.text@.subrange(parts@[0].0 as int, parts@[0].1 as int));
            assert(pv[1] == self.text@.subrange(parts@[1].0 as int, parts@[1].1 as int));
            assert(pv[2] == self.text@.subrange(parts@[2].0 as int, parts@[2].1 as int));
            let tag = match parse_u64_range(&self.text, parts[0].0, parts[0].1) {
                None => return Err(parse_error(i, "Invalid element tag")),
                Some(t) => t,
            };
            let etype_id = match parse_i32_range(&self.text, parts[1].0, parts[1].1) {
                None => return Err(parse_error(i, "Invalid element type")),
                Some(t) => t,
            };
            let num_tags = match parse_usize_range(&self.text, parts[2].0, parts[2].1) {
                None => return Err(parse_error(i, "Invalid number of tags")),
                Some(t) => t,
            };
            if num_tags > parts.len() - 3 {
                return Err(parse_error(i, "Element line too short for tags"));
            }
            let start = 3 + num_tags;
            let ids = match self.all_u64_words(&parts, start) {
                None => return Err(parse_error(i, "Invalid node id in element")),
                Some(ids) => ids,
            };
            let etype = ElementType::from_gmsh_type_id(etype_id);
            mesh.add_element(Element::new(tag, etype, ids));
            i = i + 1;
            k = k + 1;
        }
        self.end_line(i, &kw_end_elements_chars(), "Expected $EndElements")
    }

    /// The words `parts[start..]` read as `u64` numbers, or `None` if one
    /// is not one.
    fn all_u64_words(&self, parts: &Vec<(usize, usize)>, start: usize) -> (r: Option<Vec<u64>>)
        requires
            self.inv(),
            start <= parts@.len(),
            ranges_within(parts@, 0, self.text@.len() as int),
        ensures
            match all_u64(ranges_view(self.text@, parts@).skip(start as int)) {
                None => r is None,
                Some(v) => r matches Some(w) && w@ == v,
            },
    {
        let ghost pv = ranges_view(self.text@, parts@);
        let mut out: Vec<u64> = Vec::new();
        let mut k = start;
        assert(pv.subrange(start as int, start as int) =~= Seq::<Seq<char>>::empty());
        while k < parts.len()
            invariant
                self.inv(),
                start <= k <= parts@.len(),
                ranges_within(parts@, 0, self.text@.len() as int),
                pv == ranges_view(self.text@, parts@),
                all_u64(pv.subrange(start as int, k as int)) == Some(out@),
            decreases parts@.len() - k,
        {
            assert(pv.subrange(start as int, k + 1).drop_last() =~= pv.subrange(
                start as int,
                k as int,
            ));
            assert(pv[k as int] == self.text@.subrange(parts@[k as int].0 as int, parts@[k as int].1 as int));
            match parse_u64_range(&self.text, parts[k].0, parts[k].1) {
                None => {
                    proof {
                        lemma_all_u64_prefix(pv.skip(start as int), (k - start) as int);
                        assert(pv.skip(start as int).take((k - start) + 1) =~= pv.subrange(
                            start as int,
                            k + 1,
                        ));
                    }
                    return None;
                },
                Some(v) => {
                    out.push(v);
                },
            }
            k = k + 1;
        }
        assert(pv.subrange(start as int, k as int) =~= pv.skip(start as int));
        Some(out)
    }

    /// Reading `n` node tag lines from index `i`.
    fn tags_v4(&self, i: usize, n: usize) -> (r: Result<Vec<u64>, MshError>)
        requires
            self.inv(),
            i <= self.lines@.len(),
        ensures
            match read_tags(self.ls(), i as int, n as nat) {
                Ok(t) => r matches Ok(v) && v@ == t && i + n <= self.lines@.len() && v@.len() == n,
                Err(e) => r matches Err(x) && x@ == e,
            },
    {
        let ghost goal = read_tags(self.ls(), i as int, n as nat);
        let mut out: Vec<u64> = Vec::new();
        let mut k: usize = 0;
        let mut j: usize = i;
        assert(goal == prepend_tags(out@, read_tags(self.ls(), j as int, (n - k) as nat))) by {
            assert(out@ =~= Seq::<u64>::empty());
            match read_tags(self.ls(), j as int, (n - k) as nat) {
                Ok(t) => {
                    assert(Seq::<u64>::empty() + t =~= t);
                },
                Err(_) => {},
            }
        }
        while k < n
            invariant
                self.inv(),
                j == i + k,
                k <= n,
                j <= self.lines@.len(),
                out@.len() == k,
                goal == read_tags(self.ls(), i as int, n as nat),
                goal == prepend_tags(out@, read_tags(self.ls(), j as int, (n - k) as nat)),
            decreases n - k,
        {
            if j >= self.lines.len() {
                return Err(eof_error(j));
            }
            let (a, b) = self.trimmed(j);
            let t = match parse_u64_range(&self.text, a, b) {
                None => return Err(parse_error(j, "Invalid node tag")),
                Some(t) => t,
            };
            proof {
                match read_tags(self.ls(), j + 1, (n - k - 1) as nat) {
                    Ok(rest) => {
                        assert(out@.push(t) + rest =~= out@ + (seq![t] + rest));
                    },
                    Err(_) => {},
                }
            }
            out.push(t);
            j = j + 1;
            k = k + 1;
        }
        assert(out@ + Seq::<u64>::empty() =~= out@);
        Ok(out)
    }

    /// The words of the line with index `j` that are floating-point literals.
    fn float_words_of(&self, j: usize) -> (r: Vec<(usize, usize)>)
        requires
            self.inv(),
            j < self.lines@.len(),
        ensures
            ranges_view(self.text@, r@) == float_words(words(self.ls(), j as int)),
            ranges_within(r@, 0, self.text@.len() as int),
    {
        let parts = self.words(j);
        let ghost pv = ranges_view(self.text@, parts@);
        let mut out: Vec<(usize, usize)> = Vec::new();
        let mut q: usize = 0;
        assert(ranges_view(self.text@, out@) =~= float_words(pv.take(0)));
        while q < parts.len()
            invariant
                self.inv(),
                q <= parts@.len(),
                pv == ranges_view(self.text@, parts@),
                ranges_within(parts@, 0, self.text@.len() as int),
                ranges_within(out@, 0, self.text@.len() as int),
                ranges_view(self.text@, out@) == float_words(pv.take(q as int)),
            decreases parts@.len() - q,
        {
            assert(pv.take(q + 1).drop_last() =~= pv.take(q as int));
            assert(pv[q as int] == self.text@.subrange(parts@[q as int].0 as int, parts@[q as int].1 as int));
            let ghost before = out@;
            if is_float_literal_range(&self.text, parts[q].0, parts[q].1) {
                out.push(parts[q]);
                assert(ranges_view(self.text@, out@) =~= ranges_view(self.text@, before).push(pv[q as int]));
            }
            q = q + 1;
        }
        assert(pv.take(q as int) =~= pv);
        out
    }

    /// Reading one coordinate line for each tag of `tags`, from index `i`.
    fn coords_v4(&self, i: usize, tags: &Vec<u64>, mesh: &mut Mesh) -> (r: Result<(), MshError>)
        requires
            self.inv(),
            i <= self.lines@.len(),
            old(mesh).wf(),
        ensures
            match read_coords(self.ls(), i as int, tags@, old(mesh)@) {
                Ok(m2) => r is Ok && final(mesh)@ == m2 && final(mesh).wf() && i + tags@.len()
                    <= self.lines@.len(),
                Err(e) => r matches Err(x) && x@ == e,
            },
    {
        let ghost goal = read_coords(self.ls(), i as int, tags@, old(mesh)@);
        let mut k: usize = 0;
        let mut j: usize = i;
        assert(tags@.skip(0) =~= tags@);
        while k < tags.len()
            invariant
                self.inv(),
                mesh.wf(),
                j == i + k,
                k <= tags@.len(),
                j <= self.lines@.len(),
                goal == read_coords(self.ls(), j as int, tags@.skip(k as int), mesh@),
                goal == read_coords(self.ls(), i as int, tags@, old(mesh)@),
            decreases tags@.len() - k,
        {
            assert(tags@.skip(k as int).drop_first() =~= tags@.skip(k + 1));
            assert(tags@.skip(k as int)[0] == tags@[k as int]);
            if j >= self.lines.len() {
                return Err(eof_error(j));
            }
            let c = self.float_words_of(j);
            if c.len() >= 3 {
                let ghost cv = ranges_view(self.text@, c@);
                assert(cv[0] == self.text@.subrange(c@[0].0 as int, c@[0].1 as int));
                assert(cv[1] == self.text@.subrange(c@[1].0 as int, c@[1].1 as int));
                assert(cv[2] == self.text@.subrange(c@[2].0 as int, c@[2].1 as int));
                let x = range_string(&self.text, c[0].0, c[0].1);
                let y = range_string(&self.text, c[1].0, c[1].1);
                let z = range_string(&self.text, c[2].0, c[2].1);
                mesh.add_node(Node::new(tags[k], x, y, z));
            }
            j = j + 1;
            k = k + 1;
        }
        assert(tags@.skip(k as int) =~= Seq::<u64>::empty());
        Ok(())
    }

    /// The format-4 nodes section whose header line has index `p`.
    fn nodes_v4(&self, p: usize, mesh: &mut Mesh) -> (r: Result<usize, MshError>)
        requires
            self.inv(),
            p <= self.lines@.len(),
            old(mesh).wf(),
        ensures
            section_matches(r, *final(mesh), spec_nodes_v4(self.ls(), p as int, old(mesh)@)),
    {
        if p >= self.lines.len() {
            return Err(eof_error(p));
        }
        let parts = self.words(p);
        let ghost pv = ranges_view(self.text@, parts@);
        if parts.len() < 4 {
            return Err(parse_error(p, "Invalid nodes header"));
        }
        assert(pv[0] == self.text@.subrange(parts@[0].0 as int, parts@[0].1 as int));
        let nb = match parse_usize_range(&self.text, parts[0].0, parts[0].1) {
            Some(v) => v,
            None => 0,
        };
        let ghost goal = node_blocks_v4(self.ls(), p + 1, nb as nat, old(mesh)@);
        assert(spec_nodes_v4(self.ls(), p as int, old(mesh)@) == goal);
        let mut kb: usize = 0;
        let mut i: usize = p + 1;
        while kb < nb
            invariant
                self.inv(),
                mesh.wf(),
                p < self.lines@.len(),
                kb <= nb,
                i <= self.lines@.len(),
                goal == node_blocks_v4(self.ls(), i as int, (nb - kb) as nat, mesh@),
                spec_nodes_v4(self.ls(), p as int, old(mesh)@) == goal,
            decreases nb - kb,
        {
            if i >= self.lines.len() {
                return Err(eof_error(i));
            }
            let bp = self.words(i);
            let ghost bv = ranges_view(self.text@, bp@);
            if bp.len() < 4 {
                return Err(parse_error(i, "Invalid node block header"));
            }
            assert(bv[3] == self.text@.subrange(bp@[3].0 as int, bp@[3].1 as int));
            let n = match parse_usize_range(&self.text, bp[3].0, bp[3].1) {
                Some(v) => v,
                None => 0,
            };
            let tags = match self.tags_v4(i + 1, n) {
                Err(e) => return Err(e),
                Ok(t) => t,
            };
            match self.coords_v4(i + 1 + n, &tags, mesh) {
                Err(e) => return Err(e),
                Ok(()) => {},
            }
            i = i + 1 + 2 * n;
            kb = kb + 1;
        }
        self.end_line(i, &kw_end_nodes_chars(), "Expected $EndNodes")
    }

    /// The words of the line with index `j` that are `u64` numbers, read.
    fn some_u64_of(&self, j: usize) -> (r: Vec<u64>)
        requires
            self.inv(),
            j < self.lines@.len(),
        ensures
            r@ == some_u64(words(self.ls(), j as int)),
    {
        let parts = self.words(j);
        let ghost pv = ranges_view(self.text@, parts@);
        let mut out: Vec<u64> = Vec::new();
        let mut q: usize = 0;
        assert(out@ =~= some_u64(pv.take(0)));
        while q < parts.len()
            invariant
                self.inv(),
                q <= parts@.len(),
                pv == ranges_view(self.text@, parts@),
                ranges_within(parts@, 0, self.text@.len() as int),
                out@ == some_u64(pv.take(q as int)),
            decreases parts@.len() - q,
        {
            assert(pv.take(q + 1).drop_last() =~= pv.take(q as int));
            assert(pv[q as int] == self.text@.subrange(parts@[q as int].0 as int, parts@[q as int].1 as int));
            match parse_u64_range(&self.text, parts[q].0, parts[q].1) {
                Some(v) => out.push(v),
                None => {},
            }
            q = q + 1;
        }
        assert(pv.take(q as int) =~= pv);
        out
    }

    /// Reading `n` element lines of type `et` from index `i`.
    fn element_lines(&self, i: usize, n: usize, et: ElementType, mesh: &mut Mesh) -> (r: Result<usize, MshError>)
        requires
            self.inv(),
            i <= self.lines@.len(),
            old(mesh).wf(),
        ensures
            section_matches(r, *final(mesh), element_lines_v4(self.ls(), i as int, n as nat, et, old(mesh)@)),
            r matches Ok(j) ==> j <= self.lines@.len(),
    {
        let ghost goal = element_lines_v4(self.ls(), i as int, n as nat, et, old(mesh)@);
        let mut k: usize = 0;
        let mut j: usize = i;
        while k < n
            invariant
                self.inv(),
                mesh.wf(),
                j == i + k,
                k <= n,
                j <= self.lines@.len(),
                goal == element_lines_v4(self.ls(), j as int, (n - k) as nat, et, mesh@),
                goal == element_lines_v4(self.ls(), i as int, n as nat, et, old(mesh)@),
            decreases n - k,
        {
            if j >= self.lines.len() {
                return Err(eof_error(j));
            }
            let vals = self.some_u64_of(j);
            if vals.len() > 0 {
                let mut ids: Vec<u64> = Vec::new();
                let mut q: usize = 1;
                while q < vals.len()
                    invariant
                        1 <= q <= vals@.len(),
                        ids@ == vals@.subrange(1, q as int),
                    decreases vals@.len() - q,
                {
                    ids.push(vals[q]);
                    q = q + 1;
                    assert(ids@ =~= vals@.subrange(1, q as int));
                }
                assert(ids@ =~= vals@.drop_first());
                mesh.add_element(Element::new(vals[0], et, ids));
            }
            j = j + 1;
            k = k + 1;
        }
        Ok(j)
    }

    /// The format-4 elements section whose header line has index `p`.
    fn elements_v4(&self, p: usize, mesh: &mut Mesh) -> (r: Result<usize, MshError>)
        requires
            self.inv(),
            p <= self.lines@.len(),
            old(mesh).wf(),
        ensures
            section_matches(r, *final(mesh), spec_elements_v4(self.ls(), p as int, old(mesh)@)),
    {
        if p >= self.lines.len() {
            return Err(eof_error(p));
        }
        let parts = self.words(p);
        let ghost pv = ranges_view(self.text@, parts@);
        if parts.len() < 4 {
            return Err(parse_error(p, "Invalid elements header"));
        }
        assert(pv[0] == self.text@.subrange(parts@[0].0 as int, parts@[0].1 as int));
        let nb = match parse_usize_range(&self.text, parts[0].0, parts[0].1) {
            Some(v) => v,
            None => 0,
        };
        let ghost goal = element_blocks_v4(self.ls(), p + 1, nb as nat, old(mesh)@);
        assert(spec_elements_v4(self.ls(), p as int, old(mesh)@) == goal);
        let mut kb: usize = 0;
        let mut i: usize = p + 1;
        while kb < nb
            invariant
                self.inv(),
                mesh.wf(),
                p < self.lines@.len(),
                kb <= nb,
                i <= self.lines@.len(),
                goal == element_blocks_v4(self.ls(), i as int, (nb - kb) as nat, mesh@),
                spec_elements_v4(self.ls(), p as int, old(mesh)@) == goal,
            decreases nb - kb,
        {
            if i >= self.lines.len() {
                return Err(eof_error(i));
            }
            let bp = self.words(i);
            let ghost bv = ranges_view(self.text@, bp@);
            if bp.len() < 4 {
                return Err(parse_error(i, "Invalid element block header"));
            }
            assert(bv[2] == self.text@.subrange(bp@[2].0 as int, bp@[2].1 as int));
            assert(bv[3] == self.text@.subrange(bp@[3].0 as int, bp@[3].1 as int));
            let t = match parse_i32_range(&self.text, bp[2].0, bp[2].1) {
                Some(v) => v,
                None => 0,
            };
            let n = match parse_usize_range(&self.text, bp[3].0, bp[3].1) {
                Some(v) => v,
                None => 0,
            };
            let et = ElementType::from_gmsh_type_id(t);
            i = match self.element_lines(i + 1, n, et, mesh) {
                Err(e) => return Err(e),
                Ok(j) => j,
            };
            kb = kb + 1;
        }
        self.end_line(i, &kw_end_elements_chars(), "Expected $EndElements")
    }

    /// The index after the first line from index `i` whose trimmed text is
    /// `tag`, if there is one.
    fn skip_to(&self, i: usize, tag: &Vec<char>) -> (r: Option<usize>)
        requires
            self.inv(),
            i <= self.lines@.len(),
        ensures
            match skip_to(self.ls(), i as int, tag@) {
                None => r is None,
                Some(k) => r matches Some(j) && j == k,
            },
    {
        let mut j = i;
        while j < self.lines.len()
            invariant
                self.inv(),
                i <= j <= self.lines@.len(),
                skip_to(self.ls(), i as int, tag@) == skip_to(self.ls(), j as int, tag@),
            decreases self.lines@.len() - j,
        {
            if self.line_is(j, tag) {
                return Some(j + 1);
            }
            j = j + 1;
        }
        None
    }

    /// The section at index `pos`: the version, the mesh and the index
    /// after it.
    fn section(&self, pos: usize, ver: MshVersion, mesh: &mut Mesh) -> (r: Result<
        (MshVersion, usize),
        MshError,
    >)
        requires
            self.inv(),
            pos < self.lines@.len(),
            old(mesh).wf(),
        ensures
            match spec_section(self.ls(), pos as int, ver, old(mesh)@) {
                Ok((v, m2, nxt)) => r matches Ok((v2, n2)) && v2 == v && n2 == nxt
                    && final(mesh)@ == m2 && final(mesh).wf(),
                Err(e) => r matches Err(x) && x@ == e,
            },
    {
        let (a, b) = self.trimmed(pos);
        let ghost t = self.text@.subrange(a as int, b as int);
        if range_eq(&self.text, a, b, &kw_mesh_format_chars()) {
            match self.format(pos + 1) {
                Err(e) => Err(e),
                Ok((v, nxt)) => Ok((v, nxt)),
            }
        } else if range_eq(&self.text, a, b, &kw_physical_names_chars()) {
            match self.names(pos + 1, mesh) {
                Err(e) => Err(e),
                Ok(nxt) => Ok((ver, nxt)),
            }
        } else if range_eq(&self.text, a, b, &kw_nodes_chars()) {
            let r = match ver {
                MshVersion::V2 => self.nodes_v2(pos + 1, mesh),
                MshVersion::V4 => self.nodes_v4(pos + 1, mesh),
            };
            match r {
                Err(e) => Err(e),
                Ok(nxt) => Ok((ver, nxt)),
            }
        } else if range_eq(&self.text, a, b, &kw_elements_chars()) {
            let r = match ver {
                MshVersion::V2 => self.elements_v2(pos + 1, mesh),
                MshVersion::V4 => self.elements_v4(pos + 1, mesh),
            };
            match r {
                Err(e) => Err(e),
                Ok(nxt) => Ok((ver, nxt)),
            }
        } else if a < b && self.text[a] == '$' && !range_starts_with(
            &self.text,
            a,
            b,
            &kw_end_chars(),
        ) {
            let mut tag = kw_end_chars();
            let mut k = a + 1;
            assert(t.drop_first() =~= self.text@.subrange(a + 1, b as int));
            assert(tag@ =~= kw_end() + self.text@.subrange(a + 1, k as int));
            while k < b
                invariant
                    a < k <= b <= self.text@.len(),
                    tag@ == kw_end() + self.text@.subrange(a + 1, k as int),
                decreases b - k,
            {
                tag.push(self.text[k]);
                k = k + 1;
                assert(tag@ =~= kw_end() + self.text@.subrange(a + 1, k as int));
            }
            match self.skip_to(pos + 1, &tag) {
                None => Err(eof_error(self.lines.len())),
                Some(nxt) => Ok((ver, nxt)),
            }
        } else {
            Ok((ver, pos + 1))
        }
    }

    /// The physical names section whose count line has index `p`.
    fn names(&self, p: usize, mesh: &mut Mesh) -> (r: Result<usize, MshError>)
        requires
            self.inv(),
            p <= self.lines@.len(),
            old(mesh).wf(),
        ensures
            section_matches(r, *final(mesh), spec_names(self.ls(), p as int, old(mesh)@)),
    {
        if p >= self.lines.len() {
            return Err(eof_error(p));
        }
        let (a, b) = self.trimmed(p);
        let c = match parse_usize_range(&self.text, a, b) {
            None => return Err(parse_error(p, "Invalid physical names count")),
            Some(c) => c,
        };
        let ghost goal = names_loop(self.ls(), p + 1, c as nat, old(mesh)@);
        assert(spec_names(self.ls(), p as int, old(mesh)@) == goal);
        let mut k: usize = 0;
        let mut i: usize = p + 1;
        while k < c
            invariant
                self.inv(),
                mesh.wf(),
                p < self.lines@.len(),
                i == p + 1 + k,
                k <= c,
                i <= self.lines@.len(),
                goal == names_loop(self.ls(), i as int, (c - k) as nat, mesh@),
                spec_names(self.ls(), p as int, old(mesh)@) == goal,
            decreases c - k,
        {
            if i >= self.lines.len() {
                return Err(eof_error(i));
            }
            self.name_line(i, mesh);
            i = i + 1;
            k = k + 1;
        }
        self.end_line(i, &kw_end_physical_names_chars(), "Expected $EndPhysicalNames")
    }
}

/// Reads a Gmsh MSH file (format 2.2 or 4.1, ASCII) from its text.
pub fn parse_msh(text: &str) -> (r: Result<Mesh, MshError>)
    requires
        text@.len() < usize::MAX,
    ensures
        match spec_parse_msh(text@) {
            Ok(m) => r matches Ok(mesh) && mesh@ == m && mesh.wf(),
            Err(e) => r matches Err(x) && x@ == e,
        },
{
    broadcast use vstd::string::group_string_axioms;

    let mut it = text.chars();
    let mut chars: Vec<char> = Vec::new();
    loop
        invariant
            chars@ + it.remaining() == text@,
            it.decrease() is Some,
        ensures
            chars@ == text@,
        decreases it.decrease()->0,
    {
        match it.next() {
            Some(c) => {
                chars.push(c);
            },
            None => {
                break ;
            },
        }
    }
    let lines = line_ranges(&chars);
    let reader = Reader { text: chars, lines };
    assert(reader.ls() == lines_of(text@));
    let mut mesh = Mesh::new();
    let mut ver = MshVersion::V4;
    let mut pos: usize = 0;
    let ghost goal = spec_parse_msh(text@);
    while pos < reader.lines.len()
        invariant
            reader.inv(),
            mesh.wf(),
            pos <= reader.lines@.len(),
            goal == parse_from(reader.ls(), pos as int, ver, mesh@),
            goal == spec_parse_msh(text@),
        decreases reader.lines@.len() - pos,
    {
        proof {
            lemma_section_progress(reader.ls(), pos as int, ver, mesh@);
        }
        match reader.section(pos, ver, &mut mesh) {
            Err(e) => return Err(e),
            Ok((v, nxt)) => {
                ver = v;
                pos = nxt;
            },
        }
    }
    Ok(mesh)
}

/// The tags of `r` after the tags `o`.
pub open spec fn prepend_tags(o: Seq<u64>, r: Result<Seq<u64>, MshErrorView>) -> Result<Seq<u64>, MshErrorView> {
    match r {
        Ok(t) => Ok(o + t),
        Err(e) => Err(e),
    }
}

/// When a prefix of `ws` holds a word that is not a `u64`, so does `ws`.
proof fn lemma_all_u64_prefix(ws: Seq<Seq<char>>, n: int)
    requires
        0 <= n < ws.len(),
        all_u64(ws.take(n + 1)) is None,
    ensures
        all_u64(ws) is None,
    decreases ws.len(),
{
    if n + 1 < ws.len() {
        assert(ws.drop_last().take(n + 1) =~= ws.take(n + 1));
        lemma_all_u64_prefix(ws.drop_last(), n);
    } else {
        assert(ws.take(n + 1) =~= ws);
    }
}

/// The index in `text[a..b]` of the first `c`, as an index into `text`.
fn find_char_range(text: &Vec<char>, a: usize, b: usize, c: char) -> (r: Option<usize>)
    requires
        a <= b <= text@.len(),
    ensures
        match find_char(text@.subrange(a as int, b as int), c) {
            None => r is None,
            Some(k) => r == Some((a + k) as usize) && a + k < b,
        },
{
    let mut j = a;
    while j < b
        invariant
            a <= j <= b <= text@.len(),
            match find_char(text@.subrange(j as int, b as int), c) {
                Some(x) => find_char(text@.subrange(a as int, b as int), c) == Some(
                    (x + (j - a)) as nat,
                ),
                None => find_char(text@.subrange(a as int, b as int), c) is None,
            },
        decreases b - j,
    {
        let ghost s = text@.subrange(j as int, b as int);
        assert(s[0] == text@[j as int]);
        if text[j] == c {
            return Some(j);
        }
        assert(s.drop_first() =~= text@.subrange(j + 1, b as int));
        j = j + 1;
    }
    assert(text@.subrange(j as int, b as int).len() == 0);
    None
}

/// The bounds of `text[lo..hi]` with its leading and trailing double quotes
/// removed.
fn trim_quotes_range(text: &Vec<char>, lo: usize, hi: usize) -> (r: (usize, usize))
    requires
        lo <= hi <= text@.len(),
    ensures
        lo <= r.0 <= r.1 <= hi,
        text@.subrange(r.0 as int, r.1 as int) == trim_quotes(text@.subrange(lo as int, hi as int)),
{
    let mut a = lo;
    while a < hi && text[a] == '"'
        invariant
            lo <= a <= hi <= text@.len(),
            trim_quotes_start(text@.subrange(lo as int, hi as int)) == trim_quotes_start(
                text@.subrange(a as int, hi as int),
            ),
        decreases hi - a,
    {
        assert(text@.subrange(a as int, hi as int).drop_first() =~= text@.subrange(
            a + 1,
            hi as int,
        ));
        a = a + 1;
    }
    let mut b = hi;
    while b > a && text[b - 1] == '"'
        invariant
            lo <= a <= b <= hi <= text@.len(),
            trim_quotes_start(text@.subrange(lo as int, hi as int)) == text@.subrange(
                a as int,
                hi as int,
            ),
            trim_quotes_end(text@.subrange(a as int, hi as int)) == trim_quotes_end(
                text@.subrange(a as int, b as int),
            ),
        decreases b - a,
    {
        assert(text@.subrange(a as int, b as int).drop_last() =~= text@.subrange(
            a as int,
            b - 1,
        ));
        b = b - 1;
    }
    (a, b)
}

pub(crate) fn kw_end_mesh_format_chars() -> (r: Vec<char>)
    ensures
        r@ == kw_end_mesh_format(),
{
    let r = vec!['$', 'E', 'n', 'd', 'M', 'e', 's', 'h', 'F', 'o', 'r', 'm', 'a', 't'];
    assert(r@ =~= kw_end_mesh_format());
    r
}

pub(crate) fn kw_mesh_format_chars() -> (r: Vec<char>)
    ensures
        r@ == kw_mesh_format(),
{
    let r = vec!['$', 'M', 'e', 's', 'h', 'F', 'o', 'r', 'm', 'a', 't'];
    assert(r@ =~= kw_mesh_format());
    r
}

pub(crate) fn kw_physical_names_chars() -> (r: Vec<char>)
    ensures
        r@ == kw_physical_names(),
{
    let r = vec!['$', 'P', 'h', 'y', 's', 'i', 'c', 'a', 'l', 'N', 'a', 'm', 'e', 's'];
    assert(r@ =~= kw_physical_names());
    r
}

pub(crate) fn kw_end_physical_names_chars() -> (r: Vec<char>)
    ensures
        r@ == kw_end_physical_names(),
{
    let r = vec!['$', 'E', 'n', 'd', 'P', 'h', 'y', 's', 'i', 'c', 'a', 'l', 'N', 'a', 'm', 'e', 's'];
    assert(r@ =~= kw_end_physical_names());
    r
}

pub(crate) fn kw_nodes_chars() -> (r: Vec<char>)
    ensures
        r@ == kw_nodes(),
{
    let r = vec!['$', 'N', 'o', 'd', 'e', 's'];
    assert(r@ =~= kw_nodes());
    r
}

pub(crate) fn kw_end_nodes_chars() -> (r: Vec<char>)
    ensures
        r@ == kw_end_nodes(),
{
    let r = vec!['$', 'E', 'n', 'd', 'N', 'o', 'd', 'e', 's'];
    assert(r@ =~= kw_end_nodes());
    r
}

pub(crate) fn kw_elements_chars() -> (r: Vec<char>)
    ensures
        r@ == kw_elements(),
{
    let r = vec!['$', 'E', 'l', 'e', 'm', 'e', 'n', 't', 's'];
    assert(r@ =~= kw_elements());
    r
}

pub(crate) fn kw_end_elements_chars() -> (r: Vec<char>)
    ensures
        r@ == kw_end_elements(),
{
    let r = vec!['$', 'E', 'n', 'd', 'E', 'l', 'e', 'm', 'e', 'n', 't', 's'];
    assert(r@ =~= kw_end_elements());
    r
}

pub(crate) fn kw_end_chars() -> (r: Vec<char>)
    ensures
        r@ == kw_end(),
{
    let r = vec!['$', 'E', 'n', 'd'];
    assert(r@ =~= kw_end());
    r
}

} // verus!
