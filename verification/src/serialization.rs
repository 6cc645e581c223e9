//! The blackjack file format: a version header line, then the graph as RON
//! data. This module holds the header, the names of the data types, and the
//! translation between runtime nodes (keyed by id) and stored nodes (keyed
//! by position).
use vstd::prelude::*;

use slotmap::{DefaultKey, KeyData, SecondaryMap};

use crate::graph::{
    node_slots, node_slots_keys, BjkGraph, BjkNode, BjkNodeId, DataType, DependencyKind, InputParameter, NodeSlots, Output,
};
use crate::graph_interpreter::ExternalParameter;
use crate::halfedge::{key_norm, key_slot};
use crate::text::{decimal, digits_value, is_ascii_digit, push_char, push_decimal};

verus! {

/// The version of the file format.
#[derive(Debug, PartialEq, Eq, Structural)]
pub struct SerializationVersion {
    pub major: u32,
    pub minor: u32,
    pub patch: u32,
}

/// Why a version header was refused.
#[derive(Debug, PartialEq, Eq)]
pub enum VersionError {
    /// The line does not have the five space-separated words of a header.
    InvalidHeader,
    /// The second word is not `BLACKJACK_VERSION_HEADER`.
    NotBlackjack,
    /// The major number does not parse; its text.
    BadMajor(String),
    /// The minor number does not parse; its text.
    BadMinor(String),
    /// The patch number does not parse; its text.
    BadPatch(String),
}

/// The tag that the second word of a header holds.
pub open spec fn header_tag() -> Seq<char> {
    seq![
        'B', 'L', 'A', 'C', 'K', 'J', 'A', 'C', 'K', '_', 'V', 'E', 'R', 'S', 'I', 'O', 'N', '_',
        'H', 'E', 'A', 'D', 'E', 'R',
    ]
}

/// The header line written for a version: a RON comment holding the tag
/// and the three numbers.
pub open spec fn header_text(v: SerializationVersion) -> Seq<char> {
    seq!['/', '/', ' '] + header_tag() + seq![' '] + decimal(v.major as nat) + seq![' '] + decimal(
        v.minor as nat,
    ) + seq![' '] + decimal(v.patch as nat) + seq!['\n']
}

/// `s` without its trailing line feeds.
pub open spec fn trim_newlines(s: Seq<char>) -> Seq<char>
    decreases s.len(),
{
    if s.len() > 0 && s.last() == '\n' {
        trim_newlines(s.drop_last())
    } else {
        s
    }
}

/// The pieces of `s` between occurrences of `c` (as `str::split` cuts
/// them; the empty text gives one empty piece).
pub open spec fn split_on(s: Seq<char>, c: char) -> Seq<Seq<char>>
    decreases s.len(),
{
    if s.len() == 0 {
        seq![Seq::<char>::empty()]
    } else if s.last() == c {
        split_on(s.drop_last(), c).push(Seq::<char>::empty())
    } else {
        let p = split_on(s.drop_last(), c);
        p.update(p.len() - 1, p.last().push(s.last()))
    }
}

/// `s` without a leading `+`.
pub open spec fn plus_stripped(s: Seq<char>) -> Seq<char> {
    if s.len() > 0 && s[0] == '+' {
        s.subrange(1, s.len() as int)
    } else {
        s
    }
}

/// Every character of `d` is an ASCII digit.
pub open spec fn all_digits(d: Seq<char>) -> bool {
    forall|i: int| 0 <= i < d.len() ==> is_ascii_digit(#[trigger] d[i])
}

/// What `u32::from_str` reads from `s`: an optional `+` and then one or more
/// ASCII digits whose value fits.
pub open spec fn spec_parse_u32(s: Seq<char>) -> Option<u32> {
    let d = plus_stripped(s);
    if d.len() > 0 && all_digits(d) && digits_value(d, 0, d.len() as int) <= u32::MAX {
        Some(digits_value(d, 0, d.len() as int) as u32)
    } else {
        None
    }
}

/// `r` is the outcome of reading the header line `line`.
pub open spec fn header_read_as(r: Result<SerializationVersion, VersionError>, line: Seq<char>) -> bool {
    let w = split_on(trim_newlines(line), ' ');
    if w.len() != 5 {
        r == Err::<SerializationVersion, VersionError>(VersionError::InvalidHeader)
    } else if w[1] != header_tag() {
        r == Err::<SerializationVersion, VersionError>(VersionError::NotBlackjack)
    } else if spec_parse_u32(w[2]) is None {
        r matches Err(VersionError::BadMajor(t)) && t@ == w[2]
    } else if spec_parse_u32(w[3]) is None {
        r matches Err(VersionError::BadMinor(t)) && t@ == w[3]
    } else if spec_parse_u32(w[4]) is None {
        r matches Err(VersionError::BadPatch(t)) && t@ == w[4]
    } else {
        r == Ok::<SerializationVersion, VersionError>(
            SerializationVersion {
                major: spec_parse_u32(w[2])->Some_0,
                minor: spec_parse_u32(w[3])->Some_0,
                patch: spec_parse_u32(w[4])->Some_0,
            },
        )
    }
}

/// Reads a number as `u32::from_str` does.
pub fn parse_u32(s: &Vec<char>) -> (r: Option<u32>)
    ensures
        r == spec_parse_u32(s@),
{
    let start: usize = if s.len() > 0 && s[0] == '+' {
        1
    } else {
        0
    };
    let ghost d = plus_stripped(s@);
    assert(d =~= s@.subrange(start as int, s@.len() as int));
    if start >= s.len() {
        return None;
    }
    let mut v: u64 = 0;
    let mut i: usize = start;
    while i < s.len()
        invariant
            start <= i <= s@.len(),
            d == s@.subrange(start as int, s@.len() as int),
            d == plus_stripped(s@),
            d.len() > 0,
            forall|k: int| 0 <= k < i - start ==> is_ascii_digit(#[trigger] d[k]),
            v == digits_value(d, 0, i - start),
            v <= u32::MAX,
        decreases s@.len() - i,
    {
        let c = s[i];
        assert(d[i - start] == c);
        if !crate::text::ascii_digit(c) {
            assert(!is_ascii_digit(d[i - start]));
            assert(!all_digits(d));
            return None;
        }
        let dv: u64 = ((c as u32) - 48) as u64;
        assert(d[i - start] == c);
        assert(digits_value(d, 0, i + 1 - start) == digits_value(d, 0, i - start) * 10 + dv);
        let nv = v * 10 + dv;
        if nv > 0xffff_ffffu64 {
            proof {
                crate::text::lemma_digits_value_mono(d, 0, i + 1 - start, d.len() as int);
            }
            return None;
        }
        v = nv;
        i += 1;
    }
    Some(v as u32)
}

/// The pieces of `line` between spaces, after dropping its trailing line
/// feeds.
fn header_words(line: &Vec<char>) -> (r: Vec<Vec<char>>)
    ensures
        r@.len() == split_on(trim_newlines(line@), ' ').len(),
        forall|i: int| 0 <= i < r@.len() ==> (#[trigger] r@[i])@ == split_on(trim_newlines(line@), ' ')[i],
{
    let mut end = line.len();
    assert(line@.take(end as int) =~= line@);
    while end > 0 && line[end - 1] == '\n'
        invariant
            end <= line@.len(),
            trim_newlines(line@) == trim_newlines(line@.take(end as int)),
        decreases end,
    {
        assert(line@.take(end - 1) =~= line@.take(end as int).drop_last());
        end -= 1;
    }
    let ghost t = line@.take(end as int);
    assert(trim_newlines(t) == t);
    let mut words: Vec<Vec<char>> = Vec::new();
    let mut cur: Vec<char> = Vec::new();
    let mut i: usize = 0;
    assert(split_on(t.take(0), ' ') =~= seq![Seq::<char>::empty()]);
    while i < end
        invariant
            end <= line@.len(),
            t == line@.take(end as int),
            i <= end,
            words@.len() + 1 == split_on(t.take(i as int), ' ').len(),
            forall|k: int| 0 <= k < words@.len() ==> (#[trigger] words@[k])@ == split_on(t.take(i as int), ' ')[k],
            cur@ == split_on(t.take(i as int), ' ').last(),
        decreases end - i,
    {
        let c = line[i];
        assert(t.take(i + 1).drop_last() =~= t.take(i as int));
        assert(t.take(i + 1).last() == c);
        if c == ' ' {
            words.push(cur);
            cur = Vec::new();
            assert(cur@ =~= Seq::<char>::empty());
        } else {
            cur.push(c);
        }
        i += 1;
    }
    assert(t.take(end as int) =~= t);
    words.push(cur);
    words
}

impl SerializationVersion {
    /// The version that files are written with.
    pub fn latest() -> (r: Self)
        ensures
            r == (SerializationVersion { major: 0, minor: 1, patch: 0 }),
    {
        SerializationVersion { major: 0, minor: 1, patch: 0 }
    }

    /// The first line of a file: `// BLACKJACK_VERSION_HEADER major minor
    /// patch` and a line feed.
    pub fn header_line(&self) -> (r: String)
        ensures
            r@ == header_text(*self),
    {
        let mut s = String::new();
        push_char(&mut s, '/');
        push_char(&mut s, '/');
        push_char(&mut s, ' ');
        s.append("BLACKJACK_VERSION_HEADER");
        proof {
            reveal_strlit("BLACKJACK_VERSION_HEADER");
        }
        push_char(&mut s, ' ');
        push_decimal(&mut s, self.major);
        push_char(&mut s, ' ');
        push_decimal(&mut s, self.minor);
        push_char(&mut s, ' ');
        push_decimal(&mut s, self.patch);
        push_char(&mut s, '\n');
        assert(s@ =~= header_text(*self));
        s
    }

    /// Reads the version from the first line of a file.
    pub fn from_header_line(line: &str) -> (r: Result<Self, VersionError>)
        ensures
            header_read_as(r, line@),
    {
        let chars = crate::text::str_chars(line);
        let words = header_words(&chars);
        if words.len() != 5 {
            return Err(VersionError::InvalidHeader);
        }
        let tag = String::from_str("BLACKJACK_VERSION_HEADER");
        proof {
            reveal_strlit("BLACKJACK_VERSION_HEADER");
            assert(tag@ =~= header_tag());
        }
        let w1 = crate::text::string_from_chars(&words[1], 0, words[1].len());
        assert(w1@ =~= words@[1]@);
        if w1 != tag {
            return Err(VersionError::NotBlackjack);
        }
        let major = match parse_u32(&words[2]) {
            Some(x) => x,
            None => {
                let t = crate::text::string_from_chars(&words[2], 0, words[2].len());
                assert(t@ =~= words@[2]@);
                return Err(VersionError::BadMajor(t));
            },
        };
        let minor = match parse_u32(&words[3]) {
            Some(x) => x,
            None => {
                let t = crate::text::string_from_chars(&words[3], 0, words[3].len());
                assert(t@ =~= words@[3]@);
                return Err(VersionError::BadMinor(t));
            },
        };
        let patch = match parse_u32(&words[4]) {
            Some(x) => x,
            None => {
                let t = crate::text::string_from_chars(&words[4], 0, words[4].len());
                assert(t@ =~= words@[4]@);
                return Err(VersionError::BadPatch(t));
            },
        };
        Ok(SerializationVersion { major, minor, patch })
    }
}

/// Appending text without `c` extends the last piece.
proof fn lemma_split_extend(s: Seq<char>, t: Seq<char>, c: char)
    requires
        forall|i: int| 0 <= i < t.len() ==> t[i] != c,
    ensures
        split_on(s + t, c) == split_on(s, c).update(
            split_on(s, c).len() - 1,
            split_on(s, c).last() + t,
        ),
        split_on(s, c).len() >= 1,
    decreases t.len(),
{
    lemma_split_nonempty(s, c);
    if t.len() == 0 {
        assert(s + t =~= s);
        assert(split_on(s, c).last() + t =~= split_on(s, c).last());
        assert(split_on(s, c).update(split_on(s, c).len() - 1, split_on(s, c).last())
            =~= split_on(s, c));
    } else {
        let t2 = t.drop_last();
        lemma_split_extend(s, t2, c);
        assert((s + t).drop_last() =~= s + t2);
        assert((s + t).last() == t.last());
        lemma_split_nonempty(s + t2, c);
        let p = split_on(s, c);
        assert(split_on(s + t, c) =~= p.update(p.len() - 1, p.last() + t)) by {
            assert(p.last() + t2 + seq![t.last()] =~= p.last() + t);
            assert((p.last() + t2).push(t.last()) =~= p.last() + t);
        }
    }
}

proof fn lemma_split_nonempty(s: Seq<char>, c: char)
    ensures
        split_on(s, c).len() >= 1,
    decreases s.len(),
{
    if s.len() > 0 {
        lemma_split_nonempty(s.drop_last(), c);
    }
}

/// Appending `c` starts a new, empty piece.
proof fn lemma_split_sep(s: Seq<char>, c: char)
    ensures
        split_on(s.push(c), c) == split_on(s, c).push(Seq::<char>::empty()),
{
    assert(s.push(c).drop_last() =~= s);
}

/// Joining pieces without `c` by `c` and splitting gives the pieces back.
proof fn lemma_split_join(parts: Seq<Seq<char>>, c: char)
    requires
        parts.len() >= 1,
        forall|i: int, j: int| 0 <= i < parts.len() && 0 <= j < parts[i].len() ==> parts[i][j] != c,
    ensures
        split_on(join_with(parts, c), c) == parts,
    decreases parts.len(),
{
    if parts.len() == 1 {
        let e = Seq::<char>::empty();
        lemma_split_extend(e, parts[0], c);
        assert(e + parts[0] =~= parts[0]);
        assert(join_with(parts, c) == parts[0]);
        assert(split_on(e, c).update(0, split_on(e, c).last() + parts[0]) =~= parts) by {
            assert(split_on(e, c) =~= seq![e]);
            assert(e + parts[0] =~= parts[0]);
        }
    } else {
        let front = parts.drop_last();
        lemma_split_join(front, c);
        let j = join_with(front, c);
        lemma_split_sep(j, c);
        lemma_split_extend(j.push(c), parts.last(), c);
        assert(join_with(parts, c) == j.push(c) + parts.last());
        let q = split_on(j.push(c), c);
        assert(q =~= front.push(Seq::<char>::empty()));
        assert(q.update(q.len() - 1, q.last() + parts.last()) =~= parts) by {
            assert(Seq::<char>::empty() + parts.last() =~= parts.last());
        }
    }
}

/// The pieces joined with `c` between them.
pub open spec fn join_with(parts: Seq<Seq<char>>, c: char) -> Seq<char>
    decreases parts.len(),
{
    if parts.len() <= 1 {
        if parts.len() == 1 {
            parts[0]
        } else {
            Seq::empty()
        }
    } else {
        join_with(parts.drop_last(), c).push(c) + parts.last()
    }
}

/// `u32::from_str` reads back the decimal text of a number.
proof fn lemma_parse_decimal(n: u32)
    ensures
        spec_parse_u32(decimal(n as nat)) == Some(n),
{
    crate::text::lemma_decimal_digits(n as nat);
    let d = decimal(n as nat);
    assert(d[0] != '+');
    assert(plus_stripped(d) == d);
}

/// Reading the header line written for a version gives that version back.
pub proof fn lemma_header_roundtrip(v: SerializationVersion)
    ensures
        header_read_as(Ok(v), header_text(v)),
        forall|r: Result<SerializationVersion, VersionError>| #[trigger] header_read_as(r, header_text(v)) ==> r == Ok::<SerializationVersion, VersionError>(v),
{
    let d1 = decimal(v.major as nat);
    let d2 = decimal(v.minor as nat);
    let d3 = decimal(v.patch as nat);
    crate::text::lemma_decimal_digits(v.major as nat);
    crate::text::lemma_decimal_digits(v.minor as nat);
    crate::text::lemma_decimal_digits(v.patch as nat);
    let parts = seq![seq!['/', '/'], header_tag(), d1, d2, d3];
    let body = seq!['/', '/', ' '] + header_tag() + seq![' '] + d1 + seq![' '] + d2 + seq![' '] + d3;
    assert(header_text(v) =~= body.push('\n'));
    assert(body.last() == d3.last());
    assert(trim_newlines(body.push('\n')) == trim_newlines(body)) by {
        assert(body.push('\n').drop_last() =~= body);
    }
    assert(trim_newlines(body) == body);
    assert(join_with(parts, ' ') =~= body) by {
        assert(parts.take(1) =~= seq![seq!['/', '/']]);
        assert(join_with(parts.take(1), ' ') == seq!['/', '/']);
        assert(parts.take(2).drop_last() =~= parts.take(1));
        assert(join_with(parts.take(2), ' ') =~= seq!['/', '/', ' '] + header_tag());
        assert(parts.take(3).drop_last() =~= parts.take(2));
        assert(join_with(parts.take(3), ' ') =~= seq!['/', '/', ' '] + header_tag() + seq![' '] + d1);
        assert(parts.take(4).drop_last() =~= parts.take(3));
        assert(join_with(parts.take(4), ' ') =~= seq!['/', '/', ' '] + header_tag() + seq![' '] + d1
            + seq![' '] + d2);
        assert(parts.take(5) =~= parts);
        assert(parts.drop_last() =~= parts.take(4));
    }
    assert forall|i: int, j: int| 0 <= i < parts.len() && 0 <= j < parts[i].len() implies parts[i][j] != ' ' by {
        if i >= 2 {
            assert(is_ascii_digit(parts[i][j]));
        }
    }
    lemma_split_join(parts, ' ');
    lemma_parse_decimal(v.major);
    lemma_parse_decimal(v.minor);
    lemma_parse_decimal(v.patch);
}

} // verus!

verus! {

/// The name under which a data type is stored.
pub open spec fn data_type_name(d: DataType) -> Seq<char> {
    match d {
        DataType::Vector => seq!['B', 'J', 'K', '_', 'V', 'E', 'C', 'T', 'O', 'R'],
        DataType::Scalar => seq!['B', 'J', 'K', '_', 'S', 'C', 'A', 'L', 'A', 'R'],
        DataType::Selection => seq!['B', 'J', 'K', '_', 'S', 'E', 'L', 'E', 'C', 'T', 'I', 'O', 'N'],
        DataType::Mesh => seq!['B', 'J', 'K', '_', 'M', 'E', 'S', 'H'],
        DataType::String => seq!['B', 'J', 'K', '_', 'S', 'T', 'R', 'I', 'N', 'G'],
        DataType::HeightMap => seq!['B', 'J', 'K', '_', 'H', 'E', 'I', 'G', 'H', 'T', 'M', 'A', 'P'],
    }
}

/// The data type stored under the name `s`, if any.
pub open spec fn data_type_named(s: Seq<char>) -> Option<DataType> {
    if s == data_type_name(DataType::Vector) {
        Some(DataType::Vector)
    } else if s == data_type_name(DataType::Scalar) {
        Some(DataType::Scalar)
    } else if s == data_type_name(DataType::Selection) {
        Some(DataType::Selection)
    } else if s == data_type_name(DataType::Mesh) {
        Some(DataType::Mesh)
    } else if s == data_type_name(DataType::String) {
        Some(DataType::String)
    } else if s == data_type_name(DataType::HeightMap) {
        Some(DataType::HeightMap)
    } else {
        None
    }
}

/// The name under which `data_type` is stored.
pub fn serialize_data_type(data_type: DataType) -> (r: String)
    ensures
        r@ == data_type_name(data_type),
{
    let r = match data_type {
        DataType::Vector => String::from_str("BJK_VECTOR"),
        DataType::Scalar => String::from_str("BJK_SCALAR"),
        DataType::Selection => String::from_str("BJK_SELECTION"),
        DataType::Mesh => String::from_str("BJK_MESH"),
        DataType::String => String::from_str("BJK_STRING"),
        DataType::HeightMap => String::from_str("BJK_HEIGHTMAP"),
    };
    proof {
        reveal_strlit("BJK_VECTOR");
        reveal_strlit("BJK_SCALAR");
        reveal_strlit("BJK_SELECTION");
        reveal_strlit("BJK_MESH");
        reveal_strlit("BJK_STRING");
        reveal_strlit("BJK_HEIGHTMAP");
        assert(r@ =~= data_type_name(data_type));
    }
    r
}

/// The data type stored under the name `data_type_str`; `None` for an
/// unknown name.
pub fn deserialize_data_type(data_type_str: &str) -> (r: Option<DataType>)
    ensures
        r == data_type_named(data_type_str@),
{
    proof {
        reveal_strlit("BJK_VECTOR");
        reveal_strlit("BJK_SCALAR");
        reveal_strlit("BJK_SELECTION");
        reveal_strlit("BJK_MESH");
        reveal_strlit("BJK_STRING");
        reveal_strlit("BJK_HEIGHTMAP");
        assert("BJK_VECTOR"@ =~= data_type_name(DataType::Vector));
        assert("BJK_SCALAR"@ =~= data_type_name(DataType::Scalar));
        assert("BJK_SELECTION"@ =~= data_type_name(DataType::Selection));
        assert("BJK_MESH"@ =~= data_type_name(DataType::Mesh));
        assert("BJK_STRING"@ =~= data_type_name(DataType::String));
        assert("BJK_HEIGHTMAP"@ =~= data_type_name(DataType::HeightMap));
    }
    if crate::graph::str_is(data_type_str, "BJK_VECTOR") {
        Some(DataType::Vector)
    } else if crate::graph::str_is(data_type_str, "BJK_SCALAR") {
        Some(DataType::Scalar)
    } else if crate::graph::str_is(data_type_str, "BJK_SELECTION") {
        Some(DataType::Selection)
    } else if crate::graph::str_is(data_type_str, "BJK_MESH") {
        Some(DataType::Mesh)
    } else if crate::graph::str_is(data_type_str, "BJK_STRING") {
        Some(DataType::String)
    } else if crate::graph::str_is(data_type_str, "BJK_HEIGHTMAP") {
        Some(DataType::HeightMap)
    } else {
        None
    }
}

/// Reading back the stored name of a data type gives that data type.
pub proof fn lemma_data_type_roundtrip(d: DataType)
    ensures
        data_type_named(data_type_name(d)) == Some(d),
{
    let v = data_type_name(DataType::Vector);
    let sc = data_type_name(DataType::Scalar);
    let se = data_type_name(DataType::Selection);
    let m = data_type_name(DataType::Mesh);
    let st = data_type_name(DataType::String);
    let h = data_type_name(DataType::HeightMap);
    assert(v[5] != sc[5]);
    assert(se.len() != v.len() && se.len() != sc.len());
    assert(m.len() != v.len() && m.len() != sc.len() && m.len() != se.len());
    assert(st[5] != v[5] && st[5] != sc[5] && st.len() != se.len() && st.len() != m.len());
    assert(h[4] != se[4] && h.len() != v.len() && h.len() != sc.len() && h.len() != m.len() && h.len() != st.len());
}

} // verus!

verus! {

/// Where a stored input takes its value from.
pub enum SerializedDependencyKind {
    External { promoted: Option<String> },
    /// Another node's output, by the position of that node.
    Conection { node_idx: usize, param_name: String },
}

/// A stored input.
pub struct SerializedInput {
    pub name: String,
    pub data_type: String,
    pub kind: SerializedDependencyKind,
}

/// A stored output.
#[derive(Debug, PartialEq, Eq)]
pub struct SerializedOutput {
    pub name: String,
    pub data_type: String,
}

/// A stored node.
pub struct SerializedBjkNode {
    pub op_name: String,
    pub return_value: Option<String>,
    pub inputs: Vec<SerializedInput>,
    pub outputs: Vec<SerializedOutput>,
}

/// An external parameter, by the position of its node.
#[derive(PartialEq, Eq, Hash)]
pub struct SerializedParamLocation {
    pub node_idx: usize,
    pub param_name: String,
}

/// Why a graph could not be stored or restored.
#[derive(Debug, PartialEq, Eq)]
pub enum SerializeError {
    /// A connection names a node that is not in the graph.
    InvalidNodeId(BjkNodeId),
    /// A stored position is past the last node.
    InvalidIndex(usize),
}

/// A `slotmap::SecondaryMap<DefaultKey, usize>`, held privately.
#[verifier::external_body]
pub struct IdxSecondary {
    inner: SecondaryMap<DefaultKey, usize>,
}

/// The entries of a secondary map of positions, by 64-bit key.
pub uninterp spec fn idx_secondary(m: IdxSecondary) -> Map<u64, usize>;

/// `SecondaryMap::new`: an empty map.
#[verifier::external_body]
fn idx_secondary_new() -> (r: IdxSecondary)
    ensures
        forall|k: u64| !idx_secondary(r).dom().contains(k),
{
    IdxSecondary { inner: SecondaryMap::new() }
}

/// `SecondaryMap::get` with the key `KeyData::from_ffi(k)`: the entry stored
/// under exactly that key, if any.
#[verifier::external_body]
fn idx_secondary_get(m: &IdxSecondary, k: u64) -> (r: Option<usize>)
    ensures
        r == idx_secondary(*m).get(key_norm(k)),
{
    m.inner.get(DefaultKey::from(KeyData::from_ffi(k))).copied()
}

/// `SecondaryMap::insert` with the key `KeyData::from_ffi(k)`. It returns the
/// value that was stored under that key. When the key is not the null key
/// and its slot holds nothing, the key ends up mapped to `v`. When the slot
/// holds a newer version, or the key is the null key, nothing changes;
/// otherwise the key ends up mapped to `v` and the other entries of its slot
/// are gone. Entries of other slots never change.
#[verifier::external_body]
fn idx_secondary_insert(m: &mut IdxSecondary, k: u64, v: usize) -> (r: Option<usize>)
    ensures
        r == idx_secondary(*old(m)).get(key_norm(k)),
        forall|j: u64|
            key_slot(j) != key_slot(k) ==> idx_secondary(*final(m)).get(j) == idx_secondary(
                *old(m),
            ).get(j),
        idx_secondary(*final(m)).get(key_norm(k)) == Some(v) || (idx_secondary(*final(m))
            == idx_secondary(*old(m)) && !idx_secondary(*old(m)).dom().contains(key_norm(k))),
        key_slot(k) != 0xffff_ffff && (forall|j: u64| key_slot(j) == key_slot(k) ==> !idx_secondary(
            *old(m),
        ).dom().contains(j)) ==> idx_secondary(*final(m)).get(key_norm(k)) == Some(v),
        forall|j: u64|
            key_slot(j) == key_slot(k) && j != key_norm(k) && idx_secondary(
                *final(m),
            ).dom().contains(j) ==> idx_secondary(*old(m)).dom().contains(j),
{
    m.inner.insert(DefaultKey::from(KeyData::from_ffi(k)), v)
}

/// The two directions between node ids and stored positions.
pub struct IdMappings {
    pub id_to_idx: IdxSecondary,
    pub idx_to_id: Vec<BjkNodeId>,
}

/// The keys `ids` are normal, not null, and in distinct slots.
pub open spec fn distinct_slots(ids: Seq<BjkNodeId>) -> bool {
    &&& forall|i: int| 0 <= i < ids.len() ==> key_norm((#[trigger] ids[i]).0) == ids[i].0
    &&& forall|i: int| 0 <= i < ids.len() ==> key_slot((#[trigger] ids[i]).0) < 0xffff_ffff
    &&& forall|i: int, j: int| 0 <= i < j < ids.len() ==> key_slot((#[trigger] ids[i]).0) != key_slot((#[trigger] ids[j]).0)
}

/// The position of the node `id` among `ids`, if it is there.
pub open spec fn position_of(ids: Seq<BjkNodeId>, id: BjkNodeId) -> Option<int> {
    if exists|i: int| 0 <= i < ids.len() && ids[i].0 == key_norm(id.0) {
        Some(choose|i: int| 0 <= i < ids.len() && ids[i].0 == key_norm(id.0))
    } else {
        None
    }
}

impl IdMappings {
    /// The two directions agree: the positions of the ids are the entries of
    /// the map, and nothing else is.
    pub closed spec fn well_formed(&self) -> bool {
        &&& distinct_slots(self.idx_to_id@)
        &&& forall|i: int| 0 <= i < self.idx_to_id@.len() ==> idx_secondary(self.id_to_idx).get(
            (#[trigger] self.idx_to_id@[i]).0,
        ) == Some(i as usize)
        &&& forall|k: u64| #[trigger]
            idx_secondary(self.id_to_idx).dom().contains(k) ==> exists|i: int|
                0 <= i < self.idx_to_id@.len() && self.idx_to_id@[i].0 == k
    }

    /// The mapping for the nodes `ids`, by position.
    fn from_ids(ids: Vec<BjkNodeId>) -> (r: IdMappings)
        requires
            distinct_slots(ids@),
            ids@.len() <= usize::MAX,
        ensures
            r.well_formed(),
            r.idx_to_id@ == ids@,
    {
        let mut m = idx_secondary_new();
        let mut i: usize = 0;
        while i < ids.len()
            invariant
                distinct_slots(ids@),
                i <= ids@.len(),
                forall|t: int| 0 <= t < i ==> idx_secondary(m).get((#[trigger] ids@[t]).0) == Some(t as usize),
                forall|k: u64| #[trigger]
                    idx_secondary(m).dom().contains(k) ==> exists|t: int| 0 <= t < i && ids@[t].0 == k,
            decreases ids@.len() - i,
        {
            let k = ids[i].0;
            let ghost before = idx_secondary(m);
            proof {
                assert forall|j: u64| key_slot(j) == key_slot(k) implies !before.dom().contains(j) by {
                    if before.dom().contains(j) {
                        let t = choose|t: int| 0 <= t < i && ids@[t].0 == j;
                        assert(key_slot(ids@[t].0) != key_slot(ids@[i as int].0));
                    }
                }
            }
            idx_secondary_insert(&mut m, k, i);
            proof {
                let after = idx_secondary(m);
                assert(key_norm(k) == k);
                assert forall|t: int| 0 <= t < i + 1 implies after.get((#[trigger] ids@[t]).0) == Some(t as usize) by {
                    if t < i {
                        assert(key_slot(ids@[t].0) != key_slot(ids@[i as int].0));
                    }
                }
                assert forall|j: u64| #[trigger] after.dom().contains(j) implies exists|t: int| 0 <= t < i + 1 && ids@[t].0 == j by {
                    if key_slot(j) != key_slot(k) {
                        assert(before.dom().contains(j));
                    } else if j != k {
                        assert(before.dom().contains(j));
                    } else {
                        assert(ids@[i as int].0 == j);
                    }
                }
            }
            i += 1;
        }
        IdMappings { id_to_idx: m, idx_to_id: ids }
    }

    /// The mapping for the nodes of a graph, in slot order.
    pub fn from_nodes(nodes: &NodeSlots) -> (r: IdMappings)
        ensures
            r.well_formed(),
            crate::mesh::in_slot_order(node_slots(*nodes).dom(), ids_keys(r.idx_to_id@)),
    {
        let keys = node_slots_keys(nodes);
        let mut ids: Vec<BjkNodeId> = Vec::new();
        let mut i: usize = 0;
        while i < keys.len()
            invariant
                i <= keys@.len(),
                ids@.len() == i,
                forall|t: int| 0 <= t < i ==> (#[trigger] ids@[t]).0 == keys@[t],
            decreases keys@.len() - i,
        {
            ids.push(BjkNodeId(keys[i]));
            i += 1;
        }
        assert(ids_keys(ids@) =~= keys@);
        proof {
            assert forall|a: int, b: int| 0 <= a < b < ids@.len() implies key_slot((#[trigger] ids@[a]).0) != key_slot((#[trigger] ids@[b]).0) by {
                assert(key_slot(keys@[a]) < key_slot(keys@[b]));
            }
        }
        IdMappings::from_ids(ids)
    }

    /// The node at position `idx`.
    pub fn get_id(&self, idx: usize) -> (r: Result<BjkNodeId, SerializeError>)
        ensures
            idx < self.idx_to_id@.len() ==> r == Ok::<BjkNodeId, SerializeError>(self.idx_to_id@[idx as int]),
            idx >= self.idx_to_id@.len() ==> r == Err::<BjkNodeId, SerializeError>(SerializeError::InvalidIndex(idx)),
    {
        if idx < self.idx_to_id.len() {
            Ok(self.idx_to_id[idx])
        } else {
            Err(SerializeError::InvalidIndex(idx))
        }
    }

    /// The position of the node `id`.
    pub fn get_idx(&self, id: BjkNodeId) -> (r: Result<usize, SerializeError>)
        requires
            self.well_formed(),
        ensures
            match position_of(self.idx_to_id@, id) {
                Some(i) => r matches Ok(x) && x as int == i,
                None => r == Err::<usize, SerializeError>(SerializeError::InvalidNodeId(id)),
            },
    {
        let _n = self.idx_to_id.len();
        let r = idx_secondary_get(&self.id_to_idx, id.0);
        proof {
            let ids = self.idx_to_id@;
            let m = idx_secondary(self.id_to_idx);
            if exists|i: int| 0 <= i < ids.len() && ids[i].0 == key_norm(id.0) {
                let i = choose|i: int| 0 <= i < ids.len() && ids[i].0 == key_norm(id.0);
                assert(m.get(ids[i].0) == Some(i as usize));
            } else {
                if m.dom().contains(key_norm(id.0)) {
                    let i = choose|i: int| 0 <= i < ids.len() && ids[i].0 == key_norm(id.0);
                    assert(false);
                }
            }
        }
        match r {
            Some(i) => Ok(i),
            None => Err(SerializeError::InvalidNodeId(id)),
        }
    }
}

/// The keys of a sequence of node ids.
pub open spec fn ids_keys(s: Seq<BjkNodeId>) -> Seq<u64> {
    s.map_values(|v: BjkNodeId| v.0)
}

} // verus!

verus! {

/// The text of an optional string.
pub open spec fn opt_text(o: Option<String>) -> Option<Seq<char>> {
    match o {
        Some(s) => Some(s@),
        None => None,
    }
}

/// A copy of an optional string.
fn clone_opt(o: &Option<String>) -> (r: Option<String>)
    ensures
        opt_text(r) == opt_text(*o),
{
    match o {
        Some(s) => Some(s.clone()),
        None => None,
    }
}

/// `s` stores the dependency `k`, nodes given by their position in `ids`.
pub open spec fn kind_stored_as(k: DependencyKind, s: SerializedDependencyKind, ids: Seq<BjkNodeId>) -> bool {
    match k {
        DependencyKind::External { promoted } => s matches SerializedDependencyKind::External { promoted: p }
            && opt_text(p) == opt_text(promoted),
        DependencyKind::Connection { node, param_name } => s matches SerializedDependencyKind::Conection {
            node_idx,
            param_name: q,
        } && position_of(ids, node) == Some(node_idx as int) && q@ == param_name@,
    }
}

/// `s` stores the input `i`.
pub open spec fn input_stored_as(i: InputParameter, s: SerializedInput, ids: Seq<BjkNodeId>) -> bool {
    &&& s.name@ == i.name@
    &&& s.data_type@ == data_type_name(i.data_type)
    &&& kind_stored_as(i.kind, s.kind, ids)
}

/// `s` stores the output `o`.
pub open spec fn output_stored_as(o: Output, s: SerializedOutput) -> bool {
    &&& s.name@ == o.name@
    &&& s.data_type@ == data_type_name(o.data_type)
}

/// `s` stores the node `n`.
pub open spec fn node_stored_as(n: BjkNode, s: SerializedBjkNode, ids: Seq<BjkNodeId>) -> bool {
    &&& s.op_name@ == n.op_name@
    &&& opt_text(s.return_value) == opt_text(n.return_value)
    &&& s.inputs@.len() == n.inputs@.len()
    &&& forall|i: int| 0 <= i < n.inputs@.len() ==> input_stored_as(n.inputs@[i], #[trigger] s.inputs@[i], ids)
    &&& s.outputs@.len() == n.outputs@.len()
    &&& forall|i: int| 0 <= i < n.outputs@.len() ==> output_stored_as(n.outputs@[i], #[trigger] s.outputs@[i])
}

/// The node of the first connection among `inputs` whose node is not in
/// `ids`.
pub open spec fn first_dangling(inputs: Seq<InputParameter>, ids: Seq<BjkNodeId>) -> Option<BjkNodeId>
    decreases inputs.len(),
{
    if inputs.len() == 0 {
        None
    } else {
        match first_dangling(inputs.drop_last(), ids) {
            Some(x) => Some(x),
            None => match inputs.last().kind {
                DependencyKind::Connection { node, .. } => if position_of(ids, node) is None {
                    Some(node)
                } else {
                    None
                },
                _ => None,
            },
        }
    }
}

proof fn lemma_first_dangling_prefix(inputs: Seq<InputParameter>, ids: Seq<BjkNodeId>, k: int)
    requires
        0 <= k <= inputs.len(),
        first_dangling(inputs.take(k), ids) is Some,
    ensures
        first_dangling(inputs, ids) == first_dangling(inputs.take(k), ids),
    decreases inputs.len() - k,
{
    if k < inputs.len() {
        assert(inputs.take(k + 1).drop_last() =~= inputs.take(k));
        lemma_first_dangling_prefix(inputs, ids, k + 1);
    } else {
        assert(inputs.take(k) =~= inputs);
    }
}

impl SerializedDependencyKind {
    /// Stores a dependency, naming its node by position.
    pub fn from_runtime_data(kind: &DependencyKind, mappings: &IdMappings) -> (r: Result<Self, SerializeError>)
        requires
            mappings.well_formed(),
        ensures
            match *kind {
                DependencyKind::Connection { node, .. } => position_of(mappings.idx_to_id@, node) is None
                    ==> r == Err::<Self, SerializeError>(SerializeError::InvalidNodeId(node)),
                _ => true,
            },
            r is Ok <==> !(*kind matches DependencyKind::Connection { node, .. } && position_of(
                mappings.idx_to_id@,
                node,
            ) is None),
            match r {
                Ok(x) => kind_stored_as(*kind, x, mappings.idx_to_id@),
                Err(_) => true,
            },
    {
        match kind {
            DependencyKind::External { promoted } => {
                Ok(SerializedDependencyKind::External { promoted: clone_opt(promoted) })
            },
            DependencyKind::Connection { node, param_name } => {
                let node_idx = match mappings.get_idx(*node) {
                    Ok(i) => i,
                    Err(e) => {
                        return Err(e);
                    },
                };
                Ok(SerializedDependencyKind::Conection { node_idx, param_name: param_name.clone() })
            },
        }
    }
}

impl SerializedInput {
    /// Stores an input.
    pub fn from_runtime_data(input: &InputParameter, mappings: &IdMappings) -> (r: Result<Self, SerializeError>)
        requires
            mappings.well_formed(),
        ensures
            r is Ok <==> first_dangling(seq![*input], mappings.idx_to_id@) is None,
            r matches Err(e) ==> e == SerializeError::InvalidNodeId(first_dangling(seq![*input], mappings.idx_to_id@)->Some_0),
            r matches Ok(s) ==> input_stored_as(*input, s, mappings.idx_to_id@),
    {
        proof {
            assert(seq![*input].drop_last() =~= Seq::<InputParameter>::empty());
            assert(first_dangling(Seq::<InputParameter>::empty(), mappings.idx_to_id@) is None);
            assert(seq![*input].last() == *input);
        }
        let kind = match SerializedDependencyKind::from_runtime_data(&input.kind, mappings) {
            Ok(k) => k,
            Err(e) => {
                return Err(e);
            },
        };
        Ok(SerializedInput {
            name: input.name.clone(),
            data_type: serialize_data_type(input.data_type),
            kind,
        })
    }
}

impl SerializedOutput {
    /// Stores an output.
    pub fn from_runtime_data(output: &Output) -> (r: Self)
        ensures
            output_stored_as(*output, r),
    {
        SerializedOutput { name: output.name.clone(), data_type: serialize_data_type(output.data_type) }
    }
}

impl SerializedBjkNode {
    /// Stores a node, naming the nodes of its connections by position. Fails
    /// on the first connection to a node that the mapping does not know.
    pub fn from_runtime_data(node: &BjkNode, mappings: &IdMappings) -> (r: Result<Self, SerializeError>)
        requires
            mappings.well_formed(),
        ensures
            match first_dangling(node.inputs@, mappings.idx_to_id@) {
                Some(id) => r == Err::<Self, SerializeError>(SerializeError::InvalidNodeId(id)),
                None => r matches Ok(s) && node_stored_as(*node, s, mappings.idx_to_id@),
            },
    {
        let ghost ids = mappings.idx_to_id@;
        let mut inputs: Vec<SerializedInput> = Vec::new();
        let mut i: usize = 0;
        while i < node.inputs.len()
            invariant
                mappings.well_formed(),
                ids == mappings.idx_to_id@,
                i <= node.inputs@.len(),
                inputs@.len() == i,
                forall|t: int| 0 <= t < i ==> input_stored_as(node.inputs@[t], #[trigger] inputs@[t], ids),
                first_dangling(node.inputs@.take(i as int), ids) is None,
            decreases node.inputs@.len() - i,
        {
            assert(node.inputs@.take(i + 1).drop_last() =~= node.inputs@.take(i as int));
            assert(node.inputs@.take(i + 1).last() == node.inputs@[i as int]);
            match SerializedInput::from_runtime_data(&node.inputs[i], mappings) {
                Ok(s) => {
                    inputs.push(s);
                },
                Err(e) => {
                    proof {
                        let one = seq![node.inputs@[i as int]];
                        assert(one.drop_last() =~= Seq::<InputParameter>::empty());
                        assert(first_dangling(Seq::<InputParameter>::empty(), ids) is None);
                        assert(one.last() == node.inputs@[i as int]);
                        assert(first_dangling(node.inputs@.take(i + 1), ids) == first_dangling(one, ids));
                        lemma_first_dangling_prefix(node.inputs@, ids, i + 1);
                    }
                    return Err(e);
                },
            }
            i += 1;
        }
        assert(node.inputs@.take(node.inputs@.len() as int) =~= node.inputs@);
        let mut outputs: Vec<SerializedOutput> = Vec::new();
        let mut j: usize = 0;
        while j < node.outputs.len()
            invariant
                j <= node.outputs@.len(),
                outputs@.len() == j,
                forall|t: int| 0 <= t < j ==> output_stored_as(node.outputs@[t], #[trigger] outputs@[t]),
            decreases node.outputs@.len() - j,
        {
            outputs.push(SerializedOutput::from_runtime_data(&node.outputs[j]));
            j += 1;
        }
        Ok(SerializedBjkNode {
            op_name: node.op_name.clone(),
            return_value: clone_opt(&node.return_value),
            inputs,
            outputs,
        })
    }
}

} // verus!

verus! {

/// The stored inputs whose data type is known, in order.
pub open spec fn kept_inputs(s: Seq<SerializedInput>) -> Seq<SerializedInput>
    decreases s.len(),
{
    if s.len() == 0 {
        Seq::empty()
    } else if data_type_named(s.last().data_type@) is Some {
        kept_inputs(s.drop_last()).push(s.last())
    } else {
        kept_inputs(s.drop_last())
    }
}

/// The stored outputs whose data type is known, in order.
pub open spec fn kept_outputs(s: Seq<SerializedOutput>) -> Seq<SerializedOutput>
    decreases s.len(),
{
    if s.len() == 0 {
        Seq::empty()
    } else if data_type_named(s.last().data_type@) is Some {
        kept_outputs(s.drop_last()).push(s.last())
    } else {
        kept_outputs(s.drop_last())
    }
}

/// `k` is the dependency that `s` stores, positions given by `ids`.
pub open spec fn kind_restored_as(s: SerializedDependencyKind, k: DependencyKind, ids: Seq<BjkNodeId>) -> bool {
    match s {
        SerializedDependencyKind::External { promoted } => k matches DependencyKind::External { promoted: p }
            && opt_text(p) == opt_text(promoted),
        SerializedDependencyKind::Conection { node_idx, param_name } => k matches DependencyKind::Connection {
            node,
            param_name: q,
        } && node == ids[node_idx as int] && q@ == param_name@,
    }
}

/// `i` is the input that `s` stores.
pub open spec fn input_restored_as(s: SerializedInput, i: InputParameter, ids: Seq<BjkNodeId>) -> bool {
    &&& i.name@ == s.name@
    &&& data_type_named(s.data_type@) == Some(i.data_type)
    &&& kind_restored_as(s.kind, i.kind, ids)
}

/// `o` is the output that `s` stores.
pub open spec fn output_restored_as(s: SerializedOutput, o: Output) -> bool {
    &&& o.name@ == s.name@
    &&& data_type_named(s.data_type@) == Some(o.data_type)
}

/// The connections of the kept inputs of `s` name positions below `n`.
pub open spec fn links_below(s: SerializedBjkNode, n: nat) -> bool {
    forall|i: int|
        0 <= i < kept_inputs(s.inputs@).len() ==> ((#[trigger] kept_inputs(s.inputs@)[i]).kind matches SerializedDependencyKind::Conection {
            node_idx,
            ..
        } ==> node_idx < n)
}

/// `after` is `before` with the inputs and outputs that `s` stores appended.
pub open spec fn filled_from(before: BjkNode, after: BjkNode, s: SerializedBjkNode, ids: Seq<BjkNodeId>) -> bool {
    let ki = kept_inputs(s.inputs@);
    let ko = kept_outputs(s.outputs@);
    &&& after.op_name == before.op_name
    &&& after.return_value == before.return_value
    &&& after.inputs@.len() == before.inputs@.len() + ki.len()
    &&& after.inputs@.subrange(0, before.inputs@.len() as int) == before.inputs@
    &&& forall|i: int| 0 <= i < ki.len() ==> input_restored_as(ki[i], #[trigger] after.inputs@[before.inputs@.len() + i], ids)
    &&& after.outputs@.len() == before.outputs@.len() + ko.len()
    &&& after.outputs@.subrange(0, before.outputs@.len() as int) == before.outputs@
    &&& forall|i: int| 0 <= i < ko.len() ==> output_restored_as(ko[i], #[trigger] after.outputs@[before.outputs@.len() + i])
}

impl SerializedBjkNode {
    /// Appends to `rt_node` the inputs and outputs this node stores, skipping
    /// those whose data type is unknown. Connections name their node by
    /// position in `mappings`; a position past the last node panics, which
    /// is excluded here.
    pub fn fill_runtime(self, rt_node: &mut BjkNode, mappings: &IdMappings) -> (r: Result<(), SerializeError>)
        requires
            links_below(self, mappings.idx_to_id@.len()),
        ensures
            r is Ok,
            filled_from(*old(rt_node), *final(rt_node), self, mappings.idx_to_id@),
    {
        let ghost ids = mappings.idx_to_id@;
        let ghost before = *rt_node;
        let ghost si = self.inputs@;
        let mut i: usize = 0;
        while i < self.inputs.len()
            invariant
                ids == mappings.idx_to_id@,
                si == self.inputs@,
                links_below(self, ids.len()),
                i <= si.len(),
                rt_node.op_name == before.op_name,
                rt_node.return_value == before.return_value,
                rt_node.outputs == before.outputs,
                rt_node.inputs@.len() == before.inputs@.len() + kept_inputs(si.take(i as int)).len(),
                rt_node.inputs@.subrange(0, before.inputs@.len() as int) == before.inputs@,
                forall|t: int| 0 <= t < kept_inputs(si.take(i as int)).len() ==> input_restored_as(
                    kept_inputs(si.take(i as int))[t],
                    #[trigger] rt_node.inputs@[before.inputs@.len() + t],
                    ids,
                ),
            decreases si.len() - i,
        {
            let input = &self.inputs[i];
            assert(si.take(i + 1).drop_last() =~= si.take(i as int));
            assert(si.take(i + 1).last() == si[i as int]);
            proof {
                lemma_kept_inputs_prefix(si, i as int);
            }
            match deserialize_data_type(input.data_type.as_str()) {
                Some(data_type) => {
                    let kind = match &input.kind {
                        SerializedDependencyKind::External { promoted } => DependencyKind::External {
                            promoted: clone_opt(promoted),
                        },
                        SerializedDependencyKind::Conection { node_idx, param_name } => {
                            proof {
                                let k = kept_inputs(si.take(i as int)).len() as int;
                                assert(kept_inputs(si.take(i + 1))[k] == si[i as int]);
                                lemma_kept_inputs_sub(si, i + 1);
                                assert(kept_inputs(si)[k] == si[i as int]);
                            }
                            DependencyKind::Connection {
                                node: mappings.idx_to_id[*node_idx],
                                param_name: param_name.clone(),
                            }
                        },
                    };
                    let ghost old_inputs = rt_node.inputs@;
                    rt_node.inputs.push(InputParameter { name: input.name.clone(), data_type, kind });
                    proof {
                        assert(rt_node.inputs@.subrange(0, before.inputs@.len() as int) =~= old_inputs.subrange(0, before.inputs@.len() as int));
                        let k = kept_inputs(si.take(i as int)).len() as int;
                        assert forall|t: int| 0 <= t < kept_inputs(si.take(i + 1)).len() implies input_restored_as(
                            kept_inputs(si.take(i + 1))[t],
                            #[trigger] rt_node.inputs@[before.inputs@.len() + t],
                            ids,
                        ) by {
                            if t < k {
                                assert(rt_node.inputs@[before.inputs@.len() + t] == old_inputs[before.inputs@.len() + t]);
                            }
                        }
                    }
                },
                None => {},
            }
            i += 1;
        }
        assert(si.take(si.len() as int) =~= si);
        let ghost so = self.outputs@;
        let ghost mid = *rt_node;
        let mut j: usize = 0;
        while j < self.outputs.len()
            invariant
                so == self.outputs@,
                j <= so.len(),
                rt_node.op_name == before.op_name,
                rt_node.return_value == before.return_value,
                rt_node.inputs == mid.inputs,
                rt_node.outputs@.len() == before.outputs@.len() + kept_outputs(so.take(j as int)).len(),
                rt_node.outputs@.subrange(0, before.outputs@.len() as int) == before.outputs@,
                forall|t: int| 0 <= t < kept_outputs(so.take(j as int)).len() ==> output_restored_as(
                    kept_outputs(so.take(j as int))[t],
                    #[trigger] rt_node.outputs@[before.outputs@.len() + t],
                ),
            decreases so.len() - j,
        {
            let output = &self.outputs[j];
            assert(so.take(j + 1).drop_last() =~= so.take(j as int));
            assert(so.take(j + 1).last() == so[j as int]);
            match deserialize_data_type(output.data_type.as_str()) {
                Some(data_type) => {
                    let ghost old_outputs = rt_node.outputs@;
                    rt_node.outputs.push(Output { name: output.name.clone(), data_type });
                    proof {
                        assert(rt_node.outputs@.subrange(0, before.outputs@.len() as int) =~= old_outputs.subrange(0, before.outputs@.len() as int));
                        let k = kept_outputs(so.take(j as int)).len() as int;
                        assert forall|t: int| 0 <= t < kept_outputs(so.take(j + 1)).len() implies output_restored_as(
                            kept_outputs(so.take(j + 1))[t],
                            #[trigger] rt_node.outputs@[before.outputs@.len() + t],
                        ) by {
                            if t < k {
                                assert(rt_node.outputs@[before.outputs@.len() + t] == old_outputs[before.outputs@.len() + t]);
                            }
                        }
                    }
                },
                None => {},
            }
            j += 1;
        }
        assert(so.take(so.len() as int) =~= so);
        Ok(())
    }
}

/// The kept inputs of a prefix are a prefix of the kept inputs.
proof fn lemma_kept_inputs_sub(s: Seq<SerializedInput>, k: int)
    requires
        0 <= k <= s.len(),
    ensures
        kept_inputs(s.take(k)).len() <= kept_inputs(s).len(),
        forall|t: int| 0 <= t < kept_inputs(s.take(k)).len() ==> #[trigger] kept_inputs(s.take(k))[t] == kept_inputs(s)[t],
    decreases s.len() - k,
{
    if k < s.len() {
        lemma_kept_inputs_sub(s, k + 1);
        lemma_kept_inputs_prefix(s, k);
        let a = kept_inputs(s.take(k));
        let b = kept_inputs(s.take(k + 1));
        assert forall|t: int| 0 <= t < a.len() implies #[trigger] a[t] == kept_inputs(s)[t] by {
            assert(a[t] == b[t]);
        }
    } else {
        assert(s.take(k) =~= s);
    }
}

proof fn lemma_kept_inputs_prefix(s: Seq<SerializedInput>, k: int)
    requires
        0 <= k < s.len(),
    ensures
        kept_inputs(s.take(k + 1)) == if data_type_named(s[k].data_type@) is Some {
            kept_inputs(s.take(k)).push(s[k])
        } else {
            kept_inputs(s.take(k))
        },
{
    assert(s.take(k + 1).drop_last() =~= s.take(k));
    assert(s.take(k + 1).last() == s[k]);
}

} // verus!

verus! {

/// `n` is the node that `s` stores, positions given by `ids`.
pub open spec fn node_restored_as(s: SerializedBjkNode, n: BjkNode, ids: Seq<BjkNodeId>) -> bool {
    let ki = kept_inputs(s.inputs@);
    let ko = kept_outputs(s.outputs@);
    &&& n.op_name@ == s.op_name@
    &&& opt_text(n.return_value) == opt_text(s.return_value)
    &&& n.inputs@.len() == ki.len()
    &&& forall|i: int| 0 <= i < ki.len() ==> input_restored_as(ki[i], #[trigger] n.inputs@[i], ids)
    &&& n.outputs@.len() == ko.len()
    &&& forall|i: int| 0 <= i < ko.len() ==> output_restored_as(ko[i], #[trigger] n.outputs@[i])
}

/// The node `ids[i]` of `m` is a fresh copy of the name and return value of
/// `nodes[i]`, with no inputs or outputs, and `m` has no other node.
pub open spec fn shells_of(m: Map<u64, BjkNode>, ids: Seq<BjkNodeId>, nodes: Seq<SerializedBjkNode>) -> bool {
    &&& ids.len() == nodes.len()
    &&& forall|k: u64| #[trigger] m.dom().contains(k) <==> exists|i: int| 0 <= i < ids.len() && ids[i].0 == k
    &&& forall|i: int| 0 <= i < ids.len() ==> {
        let n = #[trigger] m[ids[i].0];
        &&& n.op_name@ == nodes[i].op_name@
        &&& opt_text(n.return_value) == opt_text(nodes[i].return_value)
        &&& n.inputs@.len() == 0
        &&& n.outputs@.len() == 0
    }
}

impl IdMappings {
    /// Creates an empty runtime node for each stored node, and the mapping
    /// between their positions and their new ids.
    pub fn from_serialized_graph(nodes: &[SerializedBjkNode]) -> (r: Result<(IdMappings, NodeSlots), SerializeError>)
        requires
            nodes@.len() + 2 < 0x1_0000_0000,
        ensures
            r matches Ok((m, slots)) && m.well_formed() && shells_of(node_slots(slots), m.idx_to_id@, nodes@),
    {
        let mut slots = crate::graph::node_slots_new();
        let mut ids: Vec<BjkNodeId> = Vec::new();
        let mut i: usize = 0;
        assert(node_slots(slots).dom() =~= Set::<u64>::empty());
        while i < nodes.len()
            invariant
                nodes@.len() + 2 < 0x1_0000_0000,
                i <= nodes@.len(),
                ids@.len() == i,
                distinct_slots(ids@),
                node_slots(slots).dom().finite(),
                node_slots(slots).dom().len() == i,
                forall|k: u64| #[trigger] node_slots(slots).dom().contains(k) <==> exists|t: int| 0 <= t < ids@.len() && ids@[t].0 == k,
                forall|t: int| 0 <= t < i ==> {
                    let n = #[trigger] node_slots(slots)[ids@[t].0];
                    &&& n.op_name@ == nodes@[t].op_name@
                    &&& opt_text(n.return_value) == opt_text(nodes@[t].return_value)
                    &&& n.inputs@.len() == 0
                    &&& n.outputs@.len() == 0
                },
            decreases nodes@.len() - i,
        {
            let node = &nodes[i];
            let rt = BjkNode {
                op_name: node.op_name.clone(),
                return_value: clone_opt(&node.return_value),
                inputs: Vec::new(),
                outputs: Vec::new(),
            };
            let ghost before = node_slots(slots);
            let ghost old_ids = ids@;
            let k = crate::graph::node_slots_insert(&mut slots, rt);
            ids.push(BjkNodeId(k));
            proof {
                assert forall|t: int| 0 <= t < i implies ids@[t] == old_ids[t] by {}
                assert forall|a: int, b: int| 0 <= a < b < ids@.len() implies key_slot((#[trigger] ids@[a]).0) != key_slot((#[trigger] ids@[b]).0) by {
                    if b == i {
                        assert(before.dom().contains(ids@[a].0));
                    }
                }
                assert forall|k2: u64| #[trigger] node_slots(slots).dom().contains(k2) <==> exists|t: int| 0 <= t < ids@.len() && ids@[t].0 == k2 by {
                    if k2 == k {
                        assert(ids@[i as int].0 == k2);
                    }
                    if node_slots(slots).dom().contains(k2) && k2 != k {
                        assert(before.dom().contains(k2));
                        let t = choose|t: int| 0 <= t < old_ids.len() && old_ids[t].0 == k2;
                        assert(ids@[t].0 == k2);
                    }
                    if exists|t: int| 0 <= t < ids@.len() && ids@[t].0 == k2 {
                        let t = choose|t: int| 0 <= t < ids@.len() && ids@[t].0 == k2;
                        if t < i {
                            assert(before.dom().contains(old_ids[t].0));
                        }
                    }
                }
                assert forall|t: int| 0 <= t < i + 1 implies {
                    let n = #[trigger] node_slots(slots)[ids@[t].0];
                    &&& n.op_name@ == nodes@[t].op_name@
                    &&& opt_text(n.return_value) == opt_text(nodes@[t].return_value)
                    &&& n.inputs@.len() == 0
                    &&& n.outputs@.len() == 0
                } by {
                    if t < i {
                        assert(before.dom().contains(old_ids[t].0));
                        assert(ids@[t].0 != k);
                    }
                }
            }
            i += 1;
        }
        let m = IdMappings::from_ids(ids);
        Ok((m, slots))
    }
}

} // verus!

verus! {

/// The runtime id of the stored default node, if it names a node.
pub open spec fn default_id(default_node: Option<usize>, ids: Seq<BjkNodeId>) -> Option<BjkNodeId> {
    match default_node {
        Some(x) => if x < ids.len() {
            Some(ids[x as int])
        } else {
            None
        },
        None => None,
    }
}

/// Restores the nodes of a stored graph, with fresh ids, and its default
/// node. Connections name their node by position; a position past the last
/// node panics, which is excluded here.
pub fn graph_into_runtime(nodes: Vec<SerializedBjkNode>, default_node: Option<usize>) -> (r: Result<(BjkGraph, IdMappings), SerializeError>)
    requires
        nodes@.len() + 2 < 0x1_0000_0000,
        forall|i: int| 0 <= i < nodes@.len() ==> links_below(#[trigger] nodes@[i], nodes@.len()),
    ensures
        r matches Ok((g, m)) && {
            let ids = m.idx_to_id@;
            &&& m.well_formed()
            &&& ids.len() == nodes@.len()
            &&& forall|k: u64| #[trigger] g.nodes_map().dom().contains(k) <==> exists|i: int| 0 <= i < ids.len() && ids[i].0 == k
            &&& forall|i: int| 0 <= i < ids.len() ==> node_restored_as(nodes@[i], #[trigger] g.nodes_map()[ids[i].0], ids)
            &&& g.default_node == default_id(default_node, ids)
        },
{
    let (mappings, mut slots) = match IdMappings::from_serialized_graph(nodes.as_slice()) {
        Ok(x) => x,
        Err(e) => {
            return Err(e);
        },
    };
    let ghost ids = mappings.idx_to_id@;
    let ghost all = nodes@;
    let ghost shells = node_slots(slots);
    let mut nodes = nodes;
    let n = nodes.len();
    let mut i: usize = n;
    while i > 0
        invariant
            mappings.well_formed(),
            ids == mappings.idx_to_id@,
            ids.len() == all.len(),
            n == all.len(),
            i <= n,
            nodes@ == all.take(i as int),
            shells_of(shells, ids, all),
            forall|t: int| 0 <= t < all.len() ==> links_below(#[trigger] all[t], all.len()),
            node_slots(slots).dom() == shells.dom(),
            forall|t: int| 0 <= t < i ==> #[trigger] node_slots(slots)[ids[t].0] == shells[ids[t].0],
            forall|t: int| i <= t < n ==> node_restored_as(all[t], #[trigger] node_slots(slots)[ids[t].0], ids),
        decreases i,
    {
        i -= 1;
        let node = nodes.pop().unwrap();
        assert(node == all[i as int]);
        assert(nodes@ =~= all.take(i as int));
        let id = mappings.idx_to_id[i];
        proof {
            assert(shells.dom().contains(ids[i as int].0));
            assert(key_norm(id.0) == id.0);
        }
        let ghost before = node_slots(slots);
        let rt = crate::graph::node_slots_get_mut(&mut slots, id.0);
        let ghost shell = *rt;
        node.fill_runtime(rt, &mappings);
        proof {
            let after = node_slots(slots);
            let nd = after[id.0];
            assert(shell == shells[ids[i as int].0]);
            assert(nd.inputs@.subrange(0, 0) =~= shell.inputs@);
            assert forall|t: int| 0 <= t < kept_inputs(all[i as int].inputs@).len() implies input_restored_as(
                kept_inputs(all[i as int].inputs@)[t],
                #[trigger] nd.inputs@[t],
                ids,
            ) by {
                assert(nd.inputs@[shell.inputs@.len() + t] == nd.inputs@[t]);
            }
            assert forall|t: int| 0 <= t < kept_outputs(all[i as int].outputs@).len() implies output_restored_as(
                kept_outputs(all[i as int].outputs@)[t],
                #[trigger] nd.outputs@[t],
            ) by {
                assert(nd.outputs@[shell.outputs@.len() + t] == nd.outputs@[t]);
            }
            assert(after.dom() =~= shells.dom());
            assert forall|t: int| 0 <= t < n && t != i implies #[trigger] after[ids[t].0] == before[ids[t].0] by {
                assert(key_slot(ids[t].0) != key_slot(ids[i as int].0) || t == i);
            }
        }
    }
    let default = match default_node {
        Some(x) => match mappings.get_id(x) {
            Ok(id) => Some(id),
            Err(_) => None,
        },
        None => None,
    };
    Ok((BjkGraph { nodes: slots, default_node: default }, mappings))
}

} // verus!

verus! {

/// The node of the first dangling connection among the nodes `order`, in
/// that order, positions given by `ids`.
pub open spec fn graph_first_dangling(nodes: Map<u64, BjkNode>, order: Seq<BjkNodeId>, ids: Seq<BjkNodeId>) -> Option<BjkNodeId>
    decreases order.len(),
{
    if order.len() == 0 {
        None
    } else {
        match graph_first_dangling(nodes, order.drop_last(), ids) {
            Some(x) => Some(x),
            None => first_dangling(nodes[order.last().0].inputs@, ids),
        }
    }
}

proof fn lemma_graph_first_dangling_prefix(nodes: Map<u64, BjkNode>, order: Seq<BjkNodeId>, ids: Seq<BjkNodeId>, k: int)
    requires
        0 <= k <= order.len(),
        graph_first_dangling(nodes, order.take(k), ids) is Some,
    ensures
        graph_first_dangling(nodes, order, ids) == graph_first_dangling(nodes, order.take(k), ids),
    decreases order.len() - k,
{
    if k < order.len() {
        assert(order.take(k + 1).drop_last() =~= order.take(k));
        lemma_graph_first_dangling_prefix(nodes, order, ids, k + 1);
    } else {
        assert(order.take(k) =~= order);
    }
}

/// The stored position of the default node, if it is in the graph.
pub open spec fn default_idx(default_node: Option<BjkNodeId>, ids: Seq<BjkNodeId>) -> Option<int> {
    match default_node {
        Some(d) => position_of(ids, d),
        None => None,
    }
}

/// `o` holds the position `p`, or nothing when `p` is none.
pub open spec fn opt_idx_is(o: Option<usize>, p: Option<int>) -> bool {
    match p {
        Some(i) => o matches Some(x) && x == i,
        None => o is None,
    }
}

/// Stores the nodes of a graph in slot order, naming the nodes of their
/// connections by position, and the position of the default node. Fails on
/// the first connection, in that order, to a node that is not in the graph.
pub fn graph_from_runtime(graph: &BjkGraph) -> (r: Result<(Vec<SerializedBjkNode>, Option<usize>, IdMappings), SerializeError>)
    ensures
        forall|ids: Seq<BjkNodeId>|
            #![trigger crate::mesh::in_slot_order(graph.nodes_map().dom(), ids_keys(ids))]
            crate::mesh::in_slot_order(graph.nodes_map().dom(), ids_keys(ids)) ==> match graph_first_dangling(
                graph.nodes_map(),
                ids,
                ids,
            ) {
                Some(x) => r == Err::<(Vec<SerializedBjkNode>, Option<usize>, IdMappings), SerializeError>(
                    SerializeError::InvalidNodeId(x),
                ),
                None => r matches Ok((sn, dn, m)) && {
                    &&& m.well_formed()
                    &&& m.idx_to_id@ == ids
                    &&& sn@.len() == ids.len()
                    &&& forall|i: int| 0 <= i < ids.len() ==> node_stored_as(graph.nodes_map()[ids[i].0], #[trigger] sn@[i], ids)
                    &&& opt_idx_is(dn, default_idx(graph.default_node, ids))
                },
            },
{
    let mappings = IdMappings::from_nodes(&graph.nodes);
    let ghost ids = mappings.idx_to_id@;
    let ghost nm = graph.nodes_map();
    let mut out: Vec<SerializedBjkNode> = Vec::new();
    let mut i: usize = 0;
    let n = mappings.idx_to_id.len();
    proof {
        assert forall|ks: Seq<BjkNodeId>| #[trigger] crate::mesh::in_slot_order(nm.dom(), ids_keys(ks)) implies ks == ids by {
            crate::mesh::lemma_slot_order_unique(nm.dom(), ids_keys(ks), ids_keys(ids));
            assert forall|t: int| 0 <= t < ks.len() implies ks[t] == ids[t] by {
                assert(ids_keys(ks)[t] == ids_keys(ids)[t]);
            }
            assert(ks =~= ids);
        }
    }
    while i < n
        invariant
            mappings.well_formed(),
            ids == mappings.idx_to_id@,
            n == ids.len(),
            nm == graph.nodes_map(),
            crate::mesh::in_slot_order(nm.dom(), ids_keys(ids)),
            forall|ks: Seq<BjkNodeId>| #[trigger] crate::mesh::in_slot_order(nm.dom(), ids_keys(ks)) ==> ks == ids,
            i <= n,
            out@.len() == i,
            forall|t: int| 0 <= t < i ==> node_stored_as(nm[ids[t].0], #[trigger] out@[t], ids),
            graph_first_dangling(nm, ids.take(i as int), ids) is None,
        decreases n - i,
    {
        let id = mappings.idx_to_id[i];
        proof {
            assert(ids_keys(ids)[i as int] == id.0);
            assert(nm.dom().contains(id.0));
            assert(key_norm(id.0) == id.0);
            assert(ids.take(i + 1).drop_last() =~= ids.take(i as int));
            assert(ids.take(i + 1).last() == id);
        }
        let node = match crate::graph::node_slots_get(&graph.nodes, id.0) {
            Some(x) => x,
            None => {
                assert(false);
                return Err(SerializeError::InvalidNodeId(id));
            },
        };
        match SerializedBjkNode::from_runtime_data(node, &mappings) {
            Ok(s) => {
                out.push(s);
            },
            Err(e) => {
                proof {
                    lemma_graph_first_dangling_prefix(nm, ids, ids, i + 1);
                }
                return Err(e);
            },
        }
        i += 1;
    }
    assert(ids.take(n as int) =~= ids);
    let dn = match graph.default_node {
        Some(d) => match mappings.get_idx(d) {
            Ok(x) => Some(x),
            Err(_) => None,
        },
        None => None,
    };
    Ok((out, dn, mappings))
}

} // verus!

verus! {

/// The dependencies `a` (nodes among `ids`) and `b` (nodes among `ids2`)
/// are the same up to the renaming of each node to the one at its position.
pub open spec fn kind_equiv(a: DependencyKind, b: DependencyKind, ids: Seq<BjkNodeId>, ids2: Seq<BjkNodeId>) -> bool {
    match a {
        DependencyKind::External { promoted } => b matches DependencyKind::External { promoted: p }
            && opt_text(p) == opt_text(promoted),
        DependencyKind::Connection { node, param_name } => b matches DependencyKind::Connection {
            node: node2,
            param_name: q,
        } && q@ == param_name@ && (position_of(ids, node) matches Some(i) && node2 == ids2[i]),
    }
}

/// The nodes `a` and `b` are the same up to that renaming.
pub open spec fn node_equiv(a: BjkNode, b: BjkNode, ids: Seq<BjkNodeId>, ids2: Seq<BjkNodeId>) -> bool {
    &&& b.op_name@ == a.op_name@
    &&& opt_text(b.return_value) == opt_text(a.return_value)
    &&& b.inputs@.len() == a.inputs@.len()
    &&& forall|i: int| 0 <= i < a.inputs@.len() ==> {
        &&& (#[trigger] b.inputs@[i]).name@ == a.inputs@[i].name@
        &&& b.inputs@[i].data_type == a.inputs@[i].data_type
        &&& kind_equiv(a.inputs@[i].kind, b.inputs@[i].kind, ids, ids2)
    }
    &&& b.outputs@.len() == a.outputs@.len()
    &&& forall|i: int| 0 <= i < a.outputs@.len() ==> {
        &&& (#[trigger] b.outputs@[i]).name@ == a.outputs@[i].name@
        &&& b.outputs@[i].data_type == a.outputs@[i].data_type
    }
}

proof fn lemma_kept_inputs_all(s: Seq<SerializedInput>)
    requires
        forall|i: int| 0 <= i < s.len() ==> data_type_named((#[trigger] s[i]).data_type@) is Some,
    ensures
        kept_inputs(s) == s,
    decreases s.len(),
{
    if s.len() > 0 {
        lemma_kept_inputs_all(s.drop_last());
        assert(data_type_named(s[s.len() - 1].data_type@) is Some);
        assert(s.drop_last().push(s.last()) =~= s);
    }
}

proof fn lemma_kept_outputs_all(s: Seq<SerializedOutput>)
    requires
        forall|i: int| 0 <= i < s.len() ==> data_type_named((#[trigger] s[i]).data_type@) is Some,
    ensures
        kept_outputs(s) == s,
    decreases s.len(),
{
    if s.len() > 0 {
        lemma_kept_outputs_all(s.drop_last());
        assert(data_type_named(s[s.len() - 1].data_type@) is Some);
        assert(s.drop_last().push(s.last()) =~= s);
    }
}

/// Restoring a stored node gives the node back, up to the renaming of the
/// nodes of its connections: each to the restored node at the same
/// position. The stored connections name positions among the stored nodes.
pub proof fn lemma_node_roundtrip(n: BjkNode, s: SerializedBjkNode, n2: BjkNode, ids: Seq<BjkNodeId>, ids2: Seq<BjkNodeId>)
    requires
        node_stored_as(n, s, ids),
        node_restored_as(s, n2, ids2),
    ensures
        links_below(s, ids.len()),
        node_equiv(n, n2, ids, ids2),
{
    assert forall|i: int| 0 <= i < s.inputs@.len() implies data_type_named((#[trigger] s.inputs@[i]).data_type@) is Some by {
        assert(input_stored_as(n.inputs@[i], s.inputs@[i], ids));
        lemma_data_type_roundtrip(n.inputs@[i].data_type);
    }
    assert forall|i: int| 0 <= i < s.outputs@.len() implies data_type_named((#[trigger] s.outputs@[i]).data_type@) is Some by {
        assert(output_stored_as(n.outputs@[i], s.outputs@[i]));
        lemma_data_type_roundtrip(n.outputs@[i].data_type);
    }
    lemma_kept_inputs_all(s.inputs@);
    lemma_kept_outputs_all(s.outputs@);
    assert forall|i: int| 0 <= i < n.inputs@.len() implies {
        &&& (#[trigger] n2.inputs@[i]).name@ == n.inputs@[i].name@
        &&& n2.inputs@[i].data_type == n.inputs@[i].data_type
        &&& kind_equiv(n.inputs@[i].kind, n2.inputs@[i].kind, ids, ids2)
    } by {
        assert(input_stored_as(n.inputs@[i], s.inputs@[i], ids));
        assert(input_restored_as(s.inputs@[i], n2.inputs@[i], ids2));
        lemma_data_type_roundtrip(n.inputs@[i].data_type);
    }
    assert forall|i: int| 0 <= i < n.outputs@.len() implies {
        &&& (#[trigger] n2.outputs@[i]).name@ == n.outputs@[i].name@
        &&& n2.outputs@[i].data_type == n.outputs@[i].data_type
    } by {
        assert(output_stored_as(n.outputs@[i], s.outputs@[i]));
        assert(output_restored_as(s.outputs@[i], n2.outputs@[i]));
        lemma_data_type_roundtrip(n.outputs@[i].data_type);
    }
    assert forall|i: int| 0 <= i < kept_inputs(s.inputs@).len() implies ((#[trigger] kept_inputs(s.inputs@)[i]).kind matches SerializedDependencyKind::Conection {
        node_idx,
        ..
    } ==> node_idx < ids.len()) by {
        assert(input_stored_as(n.inputs@[i], s.inputs@[i], ids));
    }
}

/// Storing a graph and restoring what was stored gives the graph back: the
/// node at each position restores the node stored there, up to the renaming
/// of node ids by position, and the default node is the one at the default
/// node's position.
pub proof fn lemma_graph_roundtrip(
    g: BjkGraph,
    stored: Seq<SerializedBjkNode>,
    default_node: Option<usize>,
    ids: Seq<BjkNodeId>,
    g2: BjkGraph,
    ids2: Seq<BjkNodeId>,
)
    requires
        distinct_slots(ids),
        stored.len() == ids.len(),
        forall|i: int| 0 <= i < ids.len() ==> node_stored_as(g.nodes_map()[ids[i].0], #[trigger] stored[i], ids),
        opt_idx_is(default_node, default_idx(g.default_node, ids)),
        ids2.len() == stored.len(),
        forall|i: int| 0 <= i < ids2.len() ==> node_restored_as(stored[i], #[trigger] g2.nodes_map()[ids2[i].0], ids2),
        g2.default_node == default_id(default_node, ids2),
    ensures
        forall|i: int| 0 <= i < stored.len() ==> links_below(#[trigger] stored[i], stored.len()),
        forall|i: int| 0 <= i < ids.len() ==> node_equiv(g.nodes_map()[ids[i].0], #[trigger] g2.nodes_map()[ids2[i].0], ids, ids2),
        match g.default_node {
            Some(d) => match position_of(ids, d) {
                Some(i) => g2.default_node == Some(ids2[i]),
                None => g2.default_node is None,
            },
            None => g2.default_node is None,
        },
{
    assert forall|i: int| 0 <= i < stored.len() implies links_below(#[trigger] stored[i], stored.len()) by {
        lemma_node_roundtrip(g.nodes_map()[ids[i].0], stored[i], g2.nodes_map()[ids2[i].0], ids, ids2);
    }
    assert forall|i: int| 0 <= i < ids.len() implies node_equiv(g.nodes_map()[ids[i].0], #[trigger] g2.nodes_map()[ids2[i].0], ids, ids2) by {
        lemma_node_roundtrip(g.nodes_map()[ids[i].0], stored[i], g2.nodes_map()[ids2[i].0], ids, ids2);
    }
}

} // verus!

verus! {

impl SerializedParamLocation {
    /// Stores where an external parameter is, naming its node by position.
    pub fn from_runtime(param: &ExternalParameter, mappings: &IdMappings) -> (r: Result<Self, SerializeError>)
        requires
            mappings.well_formed(),
        ensures
            match position_of(mappings.idx_to_id@, param.node_id) {
                Some(i) => r matches Ok(l) && l.node_idx == i && l.param_name == param.param_name,
                None => r == Err::<Self, SerializeError>(SerializeError::InvalidNodeId(param.node_id)),
            },
    {
        match mappings.get_idx(param.node_id) {
            Ok(node_idx) => Ok(SerializedParamLocation { node_idx, param_name: param.param_name.clone() }),
            Err(e) => Err(e),
        }
    }

    /// Restores where an external parameter is.
    pub fn into_runtime(&self, mappings: &IdMappings) -> (r: Result<ExternalParameter, SerializeError>)
        ensures
            self.node_idx < mappings.idx_to_id@.len() ==> (r matches Ok(p) && p.node_id
                == mappings.idx_to_id@[self.node_idx as int] && p.param_name == self.param_name),
            self.node_idx >= mappings.idx_to_id@.len() ==> r == Err::<ExternalParameter, SerializeError>(
                SerializeError::InvalidIndex(self.node_idx),
            ),
    {
        match mappings.get_id(self.node_idx) {
            Ok(node_id) => Ok(ExternalParameter::new(node_id, self.param_name.clone())),
            Err(e) => Err(e),
        }
    }
}

} // verus!
