//! Problem instances of one-sided crossing minimisation and their text format.
//!
//! An instance is given line by line: lines starting with `c` are comments, the
//! line starting with `p` reads `p <descriptor> <fixed> <loose> <edges>` (plus
//! the cutwidth when a cutwidth ordering follows), then optionally one vertex
//! per line of the cutwidth ordering, and one edge `<fixed> <loose>` per line.
//! Fields are separated by single spaces.
use vstd::prelude::*;

verus! {

/// A cutwidth parameterisation that comes with some instances.
pub struct CutwidthParameterisation {
    pub cutwidth: i32,
    pub optimal_order: Vec<i32>,
}

/// A parsed instance.
pub struct GraphInput {
    pub number_of_fixed: i32,
    pub number_of_loose: i32,
    pub number_of_edges: i32,
    /// Fixed vertices `1..=number_of_fixed`.
    pub fixed_vertices: Vec<i32>,
    pub name: String,
    /// Loose vertices `number_of_fixed + 1 ..= number_of_fixed + number_of_loose`.
    pub loose_vertices: Vec<i32>,
    /// Edges as (fixed vertex, loose vertex), in input order.
    pub edge_set: Vec<(i32, i32)>,
    pub has_cutwith_parameter: bool,
    pub cutwith_parameter: Option<CutwidthParameterisation>,
}

pub open spec fn byte_is_digit(c: u8) -> bool {
    48 <= c <= 57
}

/// Value of a string of decimal digits.
pub open spec fn digits_value(d: Seq<u8>) -> int
    decreases d.len(),
{
    if d.len() == 0 {
        0
    } else {
        digits_value(d.drop_last()) * 10 + (d.last() - 48)
    }
}

/// The string starts with a sign.
pub open spec fn has_sign(b: Seq<u8>) -> bool {
    b.len() > 0 && (b[0] == 45u8 || b[0] == 43u8)
}

/// The string without its sign.
pub open spec fn unsigned_part(b: Seq<u8>) -> Seq<u8> {
    if has_sign(b) {
        b.skip(1)
    } else {
        b
    }
}

/// Every byte is a decimal digit.
pub open spec fn all_digits(d: Seq<u8>) -> bool {
    forall|k: int| 0 <= k < d.len() ==> byte_is_digit(#[trigger] d[k])
}

/// Value of the string with its sign.
pub open spec fn signed_value(b: Seq<u8>) -> int {
    if b.len() > 0 && b[0] == 45u8 {
        -digits_value(unsigned_part(b))
    } else {
        digits_value(unsigned_part(b))
    }
}

/// A decimal `i32` as `str::parse` reads it: an optional `+` or `-`, then at
/// least one digit and nothing else, with the value in range.
pub open spec fn parse_i32(b: Seq<u8>) -> Option<i32> {
    if unsigned_part(b).len() == 0 || !all_digits(unsigned_part(b)) {
        None
    } else if i32::MIN <= signed_value(b) <= i32::MAX {
        Some(signed_value(b) as i32)
    } else {
        None
    }
}

/// The fields of a line separated by single spaces (`str::split(' ')`):
/// consecutive spaces give empty fields, and there is always one field more
/// than there are spaces.
pub open spec fn split_spaces(b: Seq<u8>) -> Seq<Seq<u8>>
    decreases b.len(),
{
    if b.len() == 0 {
        seq![Seq::empty()]
    } else {
        let f = split_spaces(b.drop_last());
        if b.last() == 32u8 {
            f.push(Seq::empty())
        } else {
            f.update(f.len() - 1, f.last().push(b.last()))
        }
    }
}

/// What has been read after some lines.
pub struct ParseState {
    pub fixed: i32,
    pub loose: i32,
    pub edges_declared: i32,
    pub cutwidth: i32,
    pub edges: Seq<(i32, i32)>,
    pub ordering: Seq<i32>,
}

pub open spec fn initial_state() -> ParseState {
    ParseState {
        fixed: 0,
        loose: 0,
        edges_declared: 0,
        cutwidth: 0,
        edges: Seq::empty(),
        ordering: Seq::empty(),
    }
}

/// Reads one line; `None` where the line is malformed.
pub open spec fn read_line(st: ParseState, line: Seq<u8>, with_cutwidth: bool) -> Option<
    ParseState,
> {
    if line.len() > 0 && line[0] == 99u8 {
        // comment
        Some(st)
    } else if line.len() > 0 && line[0] == 112u8 {
        // problem line
        let f = split_spaces(line);
        if f.len() < 5 || (with_cutwidth && f.len() < 6) {
            None
        } else if parse_i32(f[2]) is None || parse_i32(f[3]) is None || parse_i32(f[4]) is None
            || (with_cutwidth && parse_i32(f[5]) is None) {
            None
        } else {
            Some(
                ParseState {
                    fixed: parse_i32(f[2])->Some_0,
                    loose: parse_i32(f[3])->Some_0,
                    edges_declared: parse_i32(f[4])->Some_0,
                    cutwidth: if with_cutwidth {
                        parse_i32(f[5])->Some_0
                    } else {
                        st.cutwidth
                    },
                    ..st
                },
            )
        }
    } else if with_cutwidth && (st.fixed + st.loose < i32::MIN || st.fixed + st.loose
        > i32::MAX) {
        None
    } else if with_cutwidth && (st.ordering.len() as i32) < st.fixed + st.loose {
        // cutwidth ordering
        match parse_i32(line) {
            Some(v) => Some(ParseState { ordering: st.ordering.push(v), ..st }),
            None => None,
        }
    } else {
        // edge
        let f = split_spaces(line);
        if f.len() < 2 || parse_i32(f[0]) is None || parse_i32(f[1]) is None {
            None
        } else {
            Some(
                ParseState {
                    edges: st.edges.push((parse_i32(f[0])->Some_0, parse_i32(f[1])->Some_0)),
                    ..st
                },
            )
        }
    }
}

/// Reads the lines in order; `None` as soon as one is malformed.
pub open spec fn read_lines(lines: Seq<Seq<u8>>, with_cutwidth: bool) -> Option<ParseState>
    decreases lines.len(),
{
    if lines.len() == 0 {
        Some(initial_state())
    } else {
        match read_lines(lines.drop_last(), with_cutwidth) {
            Some(st) => read_line(st, lines.last(), with_cutwidth),
            None => None,
        }
    }
}

/// The instance read from the lines is consistent: the number of edges is
/// the one declared and the loose vertex names fit in an `i32`.
pub open spec fn state_complete(st: ParseState) -> bool {
    &&& (st.edges.len() as i32) == st.edges_declared
    &&& (st.loose >= 1 ==> st.fixed + st.loose <= i32::MAX)
}

/// UTF-8 bytes of each line.
pub open spec fn line_bytes(lines: Seq<String>) -> Seq<Seq<u8>> {
    lines.map_values(|l: String| vstd::utf8::encode_utf8(l@))
}

/// Names `first + 1, ..., first + count`.
pub open spec fn numbered(first: int, count: int) -> Seq<i32> {
    Seq::new(
        if count > 0 {
            count as nat
        } else {
            0
        },
        |i: int| (first + i + 1) as i32,
    )
}

/// Neighbours of `v` in the edge list, in edge order.
pub open spec fn neighbours_in(edges: Seq<(i32, i32)>, v: i32) -> Seq<i32>
    decreases edges.len(),
{
    if edges.len() == 0 {
        Seq::empty()
    } else {
        let rest = neighbours_in(edges.drop_last(), v);
        let e = edges.last();
        if e.0 == v {
            rest.push(e.1)
        } else if e.1 == v {
            rest.push(e.0)
        } else {
            rest
        }
    }
}

/// The parsed instance `g` is the one described by the state `st`.
pub open spec fn built_from(g: GraphInput, st: ParseState, with_cutwidth: bool) -> bool {
    &&& g.number_of_fixed == st.fixed
    &&& g.number_of_loose == st.loose
    &&& g.number_of_edges == st.edges_declared
    &&& g.fixed_vertices@ == numbered(0, st.fixed as int)
    &&& g.loose_vertices@ == numbered(st.fixed as int, st.loose as int)
    &&& g.edge_set@ == st.edges
    &&& g.has_cutwith_parameter == with_cutwidth
    &&& match g.cutwith_parameter {
        Some(c) => with_cutwidth && c.cutwidth == st.cutwidth && c.optimal_order@ == st.ordering,
        None => !with_cutwidth,
    }
}

/// Reads a decimal `i32` as `str::parse` does.
pub fn parse_i32_bytes(b: &[u8]) -> (res: Option<i32>)
    ensures
        res == parse_i32(b@),
{
    let n = b.len();
    let mut start: usize = 0;
    let mut neg = false;
    if n > 0 && (b[0] == 45u8 || b[0] == 43u8) {
        neg = b[0] == 45u8;
        start = 1;
    }
    let ghost d = unsigned_part(b@);
    assert(start == 1 <==> has_sign(b@));
    if start == n {
        return None;
    }
    let mut value: u64 = 0;
    let mut k: usize = start;
    while k < n
        invariant
            n == b@.len(),
            start <= k <= n,
            start < n,
            d == b@.skip(start as int),
            d == unsigned_part(b@),
            neg == (b@.len() > 0 && b@[0] == 45u8),
            forall|j: int| 0 <= j < k - start ==> byte_is_digit(#[trigger] d[j]),
            value == digits_value(d.take(k - start)),
            value <= 2147483648,
        decreases n - k,
    {
        let c = b[k];
        proof {
            assert(d[k - start] == c);
        }
        if !(48u8 <= c && c <= 57u8) {
            proof {
                assert(!byte_is_digit(d[k - start]));
                assert(!all_digits(d));
            }
            return None;
        }
        proof {
            assert(d.take(k - start + 1).drop_last() =~= d.take(k - start));
        }
        value = value * 10 + (c - 48u8) as u64;
        k += 1;
        if value > 2147483648 {
            proof {
                if all_digits(d) {
                    lemma_digits_value_prefix(d, k - start);
                    assert(digits_value(d) > 2147483648);
                }
                assert(parse_i32(b@) is None);
            }
            return None;
        }
    }
    proof {
        assert(d.take(k - start) =~= d);
        assert(b@.skip(0) =~= b@);
    }
    if neg {
        Some((0i64 - value as i64) as i32)
    } else if value <= 2147483647 {
        Some(value as i32)
    } else {
        None
    }
}

proof fn lemma_digits_value_nonneg(d: Seq<u8>)
    requires
        all_digits(d),
    ensures
        digits_value(d) >= 0,
    decreases d.len(),
{
    if d.len() > 0 {
        lemma_digits_value_nonneg(d.drop_last());
    }
}

/// A longer digit string is worth at least as much as its prefix.
proof fn lemma_digits_value_prefix(d: Seq<u8>, k: int)
    requires
        0 <= k <= d.len(),
        all_digits(d),
    ensures
        digits_value(d.take(k)) <= digits_value(d),
    decreases d.len(),
{
    if k == d.len() {
        assert(d.take(k) =~= d);
    } else {
        lemma_digits_value_prefix(d.drop_last(), k);
        assert(d.drop_last().take(k) =~= d.take(k));
        lemma_digits_value_nonneg(d.drop_last());
    }
}

/// Splits a line at every single space.
pub fn split_spaces_bytes(b: &[u8]) -> (res: Vec<Vec<u8>>)
    ensures
        res@.map_values(|f: Vec<u8>| f@) == split_spaces(b@),
{
    let mut fields: Vec<Vec<u8>> = Vec::new();
    fields.push(Vec::new());
    let mut k: usize = 0;
    proof {
        assert(b@.take(0) =~= Seq::<u8>::empty());
        assert(fields@.map_values(|f: Vec<u8>| f@) =~= split_spaces(b@.take(0)));
    }
    while k < b.len()
        invariant
            k <= b@.len(),
            fields@.len() >= 1,
            fields@.map_values(|f: Vec<u8>| f@) == split_spaces(b@.take(k as int)),
        decreases b@.len() - k,
    {
        let c = b[k];
        proof {
            assert(b@.take(k + 1).drop_last() =~= b@.take(k as int));
        }
        if c == 32u8 {
            fields.push(Vec::new());
        } else {
            let last = fields.len() - 1;
            fields[last].push(c);
        }
        k += 1;
        proof {
            assert(fields@.map_values(|f: Vec<u8>| f@) =~= split_spaces(b@.take(k as int)));
        }
    }
    proof {
        assert(b@.take(k as int) =~= b@);
    }
    fields
}

/// Executable counterpart of `ParseState`.
struct LineReader {
    fixed: i32,
    loose: i32,
    edges_declared: i32,
    cutwidth: i32,
    edges: Vec<(i32, i32)>,
    ordering: Vec<i32>,
}

impl LineReader {
    spec fn state(&self) -> ParseState {
        ParseState {
            fixed: self.fixed,
            loose: self.loose,
            edges_declared: self.edges_declared,
            cutwidth: self.cutwidth,
            edges: self.edges@,
            ordering: self.ordering@,
        }
    }

    /// Reads one line; `false` where it is malformed.
    fn read(&mut self, line: &[u8], with_cutwidth: bool) -> (ok: bool)
        ensures
            ok == read_line(old(self).state(), line@, with_cutwidth) is Some,
            ok ==> final(self).state() == read_line(old(self).state(), line@, with_cutwidth)->Some_0,
    {
        if line.len() > 0 && line[0] == 99u8 {
            return true;
        }
        if line.len() > 0 && line[0] == 112u8 {
            let f = split_spaces_bytes(line);
            proof {
                assert(f@.map_values(|v: Vec<u8>| v@).len() == f@.len());
            }
            if f.len() < 5 || (with_cutwidth && f.len() < 6) {
                return false;
            }
            proof {
                assert(f@[2]@ == split_spaces(line@)[2]);
                assert(f@[3]@ == split_spaces(line@)[3]);
                assert(f@[4]@ == split_spaces(line@)[4]);
                if with_cutwidth {
                    assert(f@[5]@ == split_spaces(line@)[5]);
                }
            }
            let a = parse_i32_bytes(f[2].as_slice());
            let b = parse_i32_bytes(f[3].as_slice());
            let c = parse_i32_bytes(f[4].as_slice());
            match (a, b, c) {
                (Some(x), Some(y), Some(z)) => {
                    if with_cutwidth {
                        match parse_i32_bytes(f[5].as_slice()) {
                            Some(w) => {
                                self.cutwidth = w;
                            },
                            None => {
                                return false;
                            },
                        }
                    }
                    self.fixed = x;
                    self.loose = y;
                    self.edges_declared = z;
                    return true;
                },
                _ => {
                    return false;
                },
            }
        }
        if with_cutwidth {
            let total = match self.fixed.checked_add(self.loose) {
                Some(t) => t,
                None => {
                    return false;
                },
            };
            if (self.ordering.len() as i32) < total {
                match parse_i32_bytes(line) {
                    Some(v) => {
                        self.ordering.push(v);
                        return true;
                    },
                    None => {
                        return false;
                    },
                }
            }
        }
        let f = split_spaces_bytes(line);
        proof {
            assert(f@.map_values(|v: Vec<u8>| v@).len() == f@.len());
        }
        if f.len() < 2 {
            return false;
        }
        proof {
            assert(f@[0]@ == split_spaces(line@)[0]);
            assert(f@[1]@ == split_spaces(line@)[1]);
        }
        let left = parse_i32_bytes(f[0].as_slice());
        let right = parse_i32_bytes(f[1].as_slice());
        match (left, right) {
            (Some(x), Some(y)) => {
                self.edges.push((x, y));
                true
            },
            _ => false,
        }
    }
}

impl GraphInput {
    /// Parses an instance from its lines.  `None` where the PACE format
    /// is violated: a malformed problem line, edge or ordering entry, a wrong
    /// number of edges, or loose vertex names beyond `i32`.
    pub fn parse_from_lines(lines: &Vec<String>, with_cutwith_parameter: bool) -> (res: Option<
        GraphInput,
    >)
        ensures
            res is Some <==> (read_lines(line_bytes(lines@), with_cutwith_parameter) is Some
                && state_complete(
                read_lines(line_bytes(lines@), with_cutwith_parameter)->Some_0,
            )),
            res matches Some(g) ==> built_from(
                g,
                read_lines(line_bytes(lines@), with_cutwith_parameter)->Some_0,
                with_cutwith_parameter,
            ),
            res matches Some(g) ==> g.name@ == Seq::<char>::empty(),
    {
        let ghost all = line_bytes(lines@);
        let mut reader = LineReader {
            fixed: 0,
            loose: 0,
            edges_declared: 0,
            cutwidth: 0,
            edges: Vec::new(),
            ordering: Vec::new(),
        };
        let mut i: usize = 0;
        proof {
            assert(all.take(0) =~= Seq::<Seq<u8>>::empty());
            assert(reader.state() =~= initial_state());
        }
        while i < lines.len()
            invariant
                all == line_bytes(lines@),
                i <= lines@.len(),
                read_lines(all.take(i as int), with_cutwith_parameter) == Some(reader.state()),
            decreases lines@.len() - i,
        {
            let line = lines[i].as_str().as_bytes();
            proof {
                assert(all.take(i + 1).drop_last() =~= all.take(i as int));
                assert(all[i as int] == line@);
            }
            if !reader.read(line, with_cutwith_parameter) {
                proof {
                    lemma_read_lines_stuck(all, with_cutwith_parameter, i + 1);
                }
                return None;
            }
            i += 1;
        }
        proof {
            assert(all.take(i as int) =~= all);
        }
        if reader.edges.len() as i32 != reader.edges_declared {
            return None;
        }
        let mut fixed_verts: Vec<i32> = Vec::new();
        let mut k: i32 = 0;
        while k < reader.fixed
            invariant
                0 <= k,
                k <= reader.fixed || k == 0,
                fixed_verts@ =~= numbered(0, k as int),
            decreases reader.fixed - k,
        {
            fixed_verts.push(k + 1);
            k += 1;
        }
        let mut loose_verts: Vec<i32> = Vec::new();
        let mut k: i32 = 0;
        while k < reader.loose
            invariant
                0 <= k,
                k <= reader.loose || k == 0,
                k > 0 ==> k + reader.fixed <= i32::MAX,
                all == line_bytes(lines@),
                read_lines(all, with_cutwith_parameter) == Some(reader.state()),
                loose_verts@ =~= numbered(reader.fixed as int, k as int),
            decreases reader.loose - k,
        {
            let next = match (k + 1).checked_add(reader.fixed) {
                Some(v) => v,
                None => {
                    proof {
                        assert(reader.loose + reader.fixed > i32::MAX);
                        assert(reader.loose >= 1);

                    }
                    return None;
                },
            };
            loose_verts.push(next);
            k += 1;
        }
        let LineReader { fixed, loose, edges_declared, cutwidth, edges, ordering } = reader;
        let cutwith_parameter = if with_cutwith_parameter {
            Some(CutwidthParameterisation { cutwidth, optimal_order: ordering })
        } else {
            None
        };
        Some(
            GraphInput {
                number_of_fixed: fixed,
                number_of_loose: loose,
                number_of_edges: edges_declared,
                fixed_vertices: fixed_verts,
                name: String::new(),
                loose_vertices: loose_verts,
                edge_set: edges,
                has_cutwith_parameter: with_cutwith_parameter,
                cutwith_parameter,
            },
        )
    }
}

/// The final component of a path, as `std::path::Path::file_name` gives it
/// (`None` for a path that ends in `..` or is a root).
pub uninterp spec fn path_file_name(path: Seq<char>) -> Option<Seq<char>>;

/// Calls `std::path::Path::file_name` on `path`, which looks at the text of
/// the path only (no file is read); its result is named `path_file_name`.  A
/// component of a `str` is valid UTF-8, so the conversion back to a `String`
/// keeps it unchanged.
#[verifier::external_body]
fn file_name(path: &str) -> (res: Option<String>)
    ensures
        res is Some <==> path_file_name(path@) is Some,
        res matches Some(name) ==> path_file_name(path@) == Some(name@),
{
    match std::path::Path::new(path).file_name() {
        Some(name) => Some(name.to_string_lossy().into_owned()),
        None => None,
    }
}

impl GraphInput {
    /// Parses an instance read from the file at `path`, given as its lines,
    /// and names it after the file.  `None` where `parse_from_lines` gives
    /// `None`, or where the path names no file.
    pub fn parse(path: &str, lines: &Vec<String>, with_cutwith_parameter: bool) -> (res: Option<GraphInput>)
        ensures
            res is Some <==> (read_lines(line_bytes(lines@), with_cutwith_parameter) is Some && state_complete(
                read_lines(line_bytes(lines@), with_cutwith_parameter)->Some_0,
            ) && path_file_name(path@) is Some),
            res matches Some(g) ==> built_from(
                g,
                read_lines(line_bytes(lines@), with_cutwith_parameter)->Some_0,
                with_cutwith_parameter,
            ),
            res matches Some(g) ==> path_file_name(path@) == Some(g.name@),
    {
        match GraphInput::parse_from_lines(lines, with_cutwith_parameter) {
            Some(input) => match file_name(path) {
                Some(name) => {
                    let GraphInput {
                        number_of_fixed,
                        number_of_loose,
                        number_of_edges,
                        fixed_vertices,
                        name: _,
                        loose_vertices,
                        edge_set,
                        has_cutwith_parameter,
                        cutwith_parameter,
                    } = input;
                    Some(
                        GraphInput {
                            number_of_fixed,
                            number_of_loose,
                            number_of_edges,
                            fixed_vertices,
                            name,
                            loose_vertices,
                            edge_set,
                            has_cutwith_parameter,
                            cutwith_parameter,
                        },
                    )
                },
                None => None,
            },
            None => None,
        }
    }
}

/// After a malformed line nothing more is read.
proof fn lemma_read_lines_stuck(all: Seq<Seq<u8>>, with_cutwidth: bool, i: int)
    requires
        0 < i <= all.len(),
        read_lines(all.take(i), with_cutwidth) is None,
    ensures
        read_lines(all, with_cutwidth) is None,
    decreases all.len() - i,
{
    if i == all.len() {
        assert(all.take(i) =~= all);
    } else {
        assert(all.take(i + 1).drop_last() =~= all.take(i));
        lemma_read_lines_stuck(all, with_cutwidth, i + 1);
    }
}

impl GraphInput {
    /// Neighbours of `vertex` found by scanning the whole edge list.
    pub fn get_neighbourse_bf(&self, vertex: i32) -> (res: Vec<i32>)
        ensures
            res@ == neighbours_in(self.edge_set@, vertex),
    {
        let mut result: Vec<i32> = Vec::new();
        let mut i: usize = 0;
        while i < self.edge_set.len()
            invariant
                i <= self.edge_set@.len(),
                result@ == neighbours_in(self.edge_set@.take(i as int), vertex),
            decreases self.edge_set@.len() - i,
        {
            let (e1, e2) = self.edge_set[i];
            proof {
                assert(self.edge_set@.take(i + 1).drop_last() =~= self.edge_set@.take(i as int));
            }
            if e1 == vertex {
                result.push(e2);
            } else if e2 == vertex {
                result.push(e1);
            }
            i += 1;
        }
        proof {
            assert(self.edge_set@.take(i as int) =~= self.edge_set@);
        }
        result
    }
}

} // verus!
