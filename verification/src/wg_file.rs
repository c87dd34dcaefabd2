use awry::fm_index::FmIndex;
use vstd::prelude::*;
use vstd::string::*;

use crate::assembly_graph::{kmer_counts, AssemblyGraph};
use crate::string_id_map::{ids_valid, interned, lemma_interned_valid, StringIdMap};

verus! {

/// The node that an edge leaves: the k-mer without its last symbol.
pub open spec fn from_node(kmer: Seq<char>) -> Seq<char> {
    kmer.take(kmer.len() - 1)
}

/// The node that an edge enters: the k-mer without its first symbol.
pub open spec fn to_node(kmer: Seq<char>) -> Seq<char> {
    kmer.skip(1)
}

/// The identifiers of the nodes once the given edges were written, one after
/// the other, each with the node it leaves before the node it enters.
pub open spec fn ids_after(edges: Seq<(Seq<char>, u64)>) -> Map<Seq<char>, u64>
    decreases edges.len(),
{
    if edges.len() == 0 {
        Map::empty()
    } else {
        interned(
            interned(ids_after(edges.drop_last()), from_node(edges.last().0)),
            to_node(edges.last().0),
        )
    }
}

/// What one line of a graph file says.
pub struct EdgeFields {
    pub from_node_id: u64,
    pub to_node_id: u64,
    pub count: u64,
    pub kmer: Seq<char>,
}

/// One line of a graph file: an edge with the identifiers of its two nodes.
pub struct EdgeLine {
    pub from_node_id: u64,
    pub to_node_id: u64,
    pub count: u64,
    pub kmer: String,
}

impl View for EdgeLine {
    type V = EdgeFields;

    open spec fn view(&self) -> EdgeFields {
        EdgeFields {
            from_node_id: self.from_node_id,
            to_node_id: self.to_node_id,
            count: self.count,
            kmer: self.kmer@,
        }
    }
}

/// The line of the edge at place `i`: the edge with the identifiers that its
/// nodes have once it is written.
pub open spec fn line_of(edges: Seq<(Seq<char>, u64)>, i: int) -> EdgeFields {
    let ids = ids_after(edges.take(i + 1));
    EdgeFields {
        from_node_id: ids[from_node(edges[i].0)],
        to_node_id: ids[to_node(edges[i].0)],
        count: edges[i].1,
        kmer: edges[i].0,
    }
}

/// The lines of all edges, in the order of the edges.
pub open spec fn lines_of(edges: Seq<(Seq<char>, u64)>) -> Seq<EdgeFields> {
    Seq::new(edges.len(), |i: int| line_of(edges, i))
}

/// Whether the edges are few enough for each node to get an identifier.
pub open spec fn ids_fit(edges: Seq<(Seq<char>, u64)>) -> bool {
    2 * edges.len() + 2 <= u64::MAX
}

/// The decimal digit of a number below ten.
pub open spec fn digit_char(d: nat) -> char {
    if d == 0 {
        '0'
    } else if d == 1 {
        '1'
    } else if d == 2 {
        '2'
    } else if d == 3 {
        '3'
    } else if d == 4 {
        '4'
    } else if d == 5 {
        '5'
    } else if d == 6 {
        '6'
    } else if d == 7 {
        '7'
    } else if d == 8 {
        '8'
    } else {
        '9'
    }
}

/// A number in decimal digits, without leading zeros.
pub open spec fn decimal(n: nat) -> Seq<char>
    decreases n,
{
    if n < 10 {
        seq![digit_char(n)]
    } else {
        decimal(n / 10).push(digit_char(n % 10))
    }
}

/// The text of one line: the identifier of the node that the edge leaves, the
/// one of the node that it enters, the count and the k-mer, with a tab between
/// them and a line feed at the end.
pub open spec fn line_text(line: EdgeFields) -> Seq<char> {
    decimal(line.from_node_id as nat) + seq!['\t'] + decimal(line.to_node_id as nat) + seq!['\t']
        + decimal(line.count as nat) + seq!['\t'] + line.kmer + seq!['\n']
}

/// The text of a graph file: its lines, one after the other.
pub open spec fn lines_text(lines: Seq<EdgeFields>) -> Seq<char>
    decreases lines.len(),
{
    if lines.len() == 0 {
        Seq::empty()
    } else {
        lines_text(lines.drop_last()) + line_text(lines.last())
    }
}

/// While edges are written, identifiers stay valid, no node loses or changes
/// its identifier, and each edge adds two at most.
pub proof fn lemma_ids_grow(edges: Seq<(Seq<char>, u64)>, written: int)
    requires
        ids_fit(edges),
        0 <= written <= edges.len(),
    ensures
        ids_valid(ids_after(edges.take(written))),
        ids_after(edges.take(written)).len() <= 2 * written,
        forall|node: Seq<char>| #[trigger]
            ids_after(edges.take(written)).contains_key(node) ==> ids_after(edges).contains_key(
                node,
            ) && ids_after(edges)[node] == ids_after(edges.take(written))[node],
        written > 0 ==> ids_after(edges.take(written)).contains_key(
            from_node(edges[written - 1].0),
        ) && ids_after(edges.take(written)).contains_key(to_node(edges[written - 1].0)),
    decreases edges.len() - written,
{
    lemma_ids_count(edges, written);
    if written < edges.len() {
        lemma_ids_grow(edges, written + 1);
        assert(edges.take(written + 1).drop_last() =~= edges.take(written));
        let now = ids_after(edges.take(written));
        let between = interned(now, from_node(edges[written].0));
        lemma_interned_valid(now, from_node(edges[written].0));
        lemma_interned_valid(between, to_node(edges[written].0));
    } else {
        assert(edges.take(written) =~= edges);
    }
}

/// After each number of edges the identifiers are valid, two at most per
/// edge, and the nodes of the last edge have theirs.
proof fn lemma_ids_count(edges: Seq<(Seq<char>, u64)>, written: int)
    requires
        ids_fit(edges),
        0 <= written <= edges.len(),
    ensures
        ids_valid(ids_after(edges.take(written))),
        ids_after(edges.take(written)).len() <= 2 * written,
        written > 0 ==> ids_after(edges.take(written)).contains_key(
            from_node(edges[written - 1].0),
        ) && ids_after(edges.take(written)).contains_key(to_node(edges[written - 1].0)),
    decreases written,
{
    let now = edges.take(written);
    if written == 0 {
        assert(ids_after(now).dom() =~= Set::<Seq<char>>::empty());
    } else {
        lemma_ids_count(edges, written - 1);
        assert(now.drop_last() =~= edges.take(written - 1));
        let before = ids_after(edges.take(written - 1));
        let between = interned(before, from_node(now.last().0));
        lemma_interned_valid(before, from_node(now.last().0));
        lemma_interned_valid(between, to_node(now.last().0));
    }
}

/// Within one file the identifiers agree on all lines: there is one
/// assignment of identifiers to nodes, with a number of its own from 2 on for
/// each node, and each line holds its k-mer, the identifier of the k-mer
/// without its last symbol, and the identifier of the k-mer without its first
/// symbol.
pub proof fn lemma_lines_agree(edges: Seq<(Seq<char>, u64)>)
    requires
        ids_fit(edges),
    ensures
        ids_valid(ids_after(edges)),
        forall|i: int|
            0 <= i < edges.len() ==> {
                let line = #[trigger] lines_of(edges)[i];
                &&& line.kmer == edges[i].0
                &&& line.count == edges[i].1
                &&& ids_after(edges).contains_key(from_node(line.kmer))
                &&& ids_after(edges).contains_key(to_node(line.kmer))
                &&& line.from_node_id == ids_after(edges)[from_node(line.kmer)]
                &&& line.to_node_id == ids_after(edges)[to_node(line.kmer)]
            },
{
    lemma_ids_grow(edges, edges.len() as int);
    assert(edges.take(edges.len() as int) =~= edges);
    assert forall|i: int| 0 <= i < edges.len() implies {
        let line = #[trigger] lines_of(edges)[i];
        &&& line.kmer == edges[i].0
        &&& line.count == edges[i].1
        &&& ids_after(edges).contains_key(from_node(line.kmer))
        &&& ids_after(edges).contains_key(to_node(line.kmer))
        &&& line.from_node_id == ids_after(edges)[from_node(line.kmer)]
        &&& line.to_node_id == ids_after(edges)[to_node(line.kmer)]
    } by {
        lemma_ids_grow(edges, i + 1);
    }
}

/// Whether a character is a decimal digit.
pub open spec fn is_digit(c: char) -> bool {
    c == '0' || c == '1' || c == '2' || c == '3' || c == '4' || c == '5' || c == '6' || c == '7'
        || c == '8' || c == '9'
}

/// The number that a decimal digit stands for.
pub open spec fn digit_value(c: char) -> nat {
    if c == '0' {
        0
    } else if c == '1' {
        1
    } else if c == '2' {
        2
    } else if c == '3' {
        3
    } else if c == '4' {
        4
    } else if c == '5' {
        5
    } else if c == '6' {
        6
    } else if c == '7' {
        7
    } else if c == '8' {
        8
    } else {
        9
    }
}

/// The number that a string of decimal digits stands for.
pub open spec fn decimal_value(digits: Seq<char>) -> nat
    decreases digits.len(),
{
    if digits.len() == 0 {
        0
    } else {
        decimal_value(digits.drop_last()) * 10 + digit_value(digits.last())
    }
}

/// A number is read back from its decimal digits, which are one digit at
/// least and digits only.
pub proof fn lemma_decimal_read_back(n: nat)
    ensures
        decimal_value(decimal(n)) == n,
        decimal(n).len() >= 1,
        forall|i: int| 0 <= i < decimal(n).len() ==> is_digit(#[trigger] decimal(n)[i]),
    decreases n,
{
    if n < 10 {
        assert(decimal(n).drop_last() =~= Seq::<char>::empty());
        assert(decimal_value(decimal(n).drop_last()) == 0);
    } else {
        lemma_decimal_read_back(n / 10);
        assert(decimal(n).drop_last() =~= decimal(n / 10));
    }
}

/// Two texts that are equal and start with a field without a tab, which a tab
/// ends, have the same first field and the same text behind the tab.
proof fn lemma_first_field(x: Seq<char>, after_x: Seq<char>, y: Seq<char>, after_y: Seq<char>)
    requires
        forall|i: int| 0 <= i < x.len() ==> #[trigger] x[i] != '\t',
        forall|i: int| 0 <= i < y.len() ==> #[trigger] y[i] != '\t',
        x + seq!['\t'] + after_x == y + seq!['\t'] + after_y,
    ensures
        x == y,
        after_x == after_y,
{
    let left = x + seq!['\t'] + after_x;
    let right = y + seq!['\t'] + after_y;
    if x.len() < y.len() {
        assert(left[x.len() as int] == '\t');
        assert(right[x.len() as int] == y[x.len() as int]);
    }
    if y.len() < x.len() {
        assert(right[y.len() as int] == '\t');
        assert(left[y.len() as int] == x[y.len() as int]);
    }
    assert(x =~= y) by {
        assert forall|i: int| 0 <= i < x.len() implies x[i] == y[i] by {
            assert(left[i] == x[i]);
            assert(right[i] == y[i]);
        }
    }
    assert(after_x =~= after_y) by {
        assert(left.len() == right.len());
        assert forall|i: int| 0 <= i < after_x.len() implies after_x[i] == after_y[i] by {
            assert(left[x.len() + 1 + i] == after_x[i]);
            assert(right[y.len() + 1 + i] == after_y[i]);
        }
    }
}

/// The text of a line can be read back: lines with the same text have the
/// same identifiers, the same count and the same k-mer.
pub proof fn lemma_line_read_back(a: EdgeFields, b: EdgeFields)
    requires
        line_text(a) == line_text(b),
    ensures
        a == b,
{
    let tab = seq!['\t'];
    let feed = seq!['\n'];
    lemma_decimal_read_back(a.from_node_id as nat);
    lemma_decimal_read_back(a.to_node_id as nat);
    lemma_decimal_read_back(a.count as nat);
    lemma_decimal_read_back(b.from_node_id as nat);
    lemma_decimal_read_back(b.to_node_id as nat);
    lemma_decimal_read_back(b.count as nat);
    let a3 = a.kmer + feed;
    let b3 = b.kmer + feed;
    let a2 = decimal(a.count as nat) + tab + a3;
    let b2 = decimal(b.count as nat) + tab + b3;
    let a1 = decimal(a.to_node_id as nat) + tab + a2;
    let b1 = decimal(b.to_node_id as nat) + tab + b2;
    assert(line_text(a) =~= decimal(a.from_node_id as nat) + tab + a1);
    assert(line_text(b) =~= decimal(b.from_node_id as nat) + tab + b1);
    lemma_first_field(decimal(a.from_node_id as nat), a1, decimal(b.from_node_id as nat), b1);
    lemma_first_field(decimal(a.to_node_id as nat), a2, decimal(b.to_node_id as nat), b2);
    lemma_first_field(decimal(a.count as nat), a3, decimal(b.count as nat), b3);
    assert(a.kmer =~= b.kmer) by {
        assert(a3.len() == b3.len());
        assert forall|i: int| 0 <= i < a.kmer.len() implies a.kmer[i] == b.kmer[i] by {
            assert(a3[i] == a.kmer[i]);
            assert(b3[i] == b.kmer[i]);
        }
    }
}

/// The decimal digit of a number below ten, as a string of one character.
fn digit_str(d: u64) -> (r: &'static str)
    requires
        d < 10,
    ensures
        r@ == seq![digit_char(d as nat)],
{
    proof {
        reveal_strlit("0");
        reveal_strlit("1");
        reveal_strlit("2");
        reveal_strlit("3");
        reveal_strlit("4");
        reveal_strlit("5");
        reveal_strlit("6");
        reveal_strlit("7");
        reveal_strlit("8");
        reveal_strlit("9");
    }
    let r = if d == 0 {
        "0"
    } else if d == 1 {
        "1"
    } else if d == 2 {
        "2"
    } else if d == 3 {
        "3"
    } else if d == 4 {
        "4"
    } else if d == 5 {
        "5"
    } else if d == 6 {
        "6"
    } else if d == 7 {
        "7"
    } else if d == 8 {
        "8"
    } else {
        "9"
    };
    assert(r@ =~= seq![digit_char(d as nat)]);
    r
}

/// Writes a number in decimal digits.
pub fn decimal_string(n: u64) -> (r: String)
    ensures
        r@ == decimal(n as nat),
    decreases n,
{
    if n < 10 {
        String::from_str(digit_str(n))
    } else {
        let mut text: String = decimal_string(n / 10);
        text.append(digit_str(n % 10));
        assert(text@ =~= decimal(n as nat));
        text
    }
}

impl EdgeLine {
    /// The text of the line, with the line feed that ends it.
    pub fn text(&self) -> (r: String)
        ensures
            r@ == line_text(self@),
    {
        proof {
            reveal_strlit("\t");
            reveal_strlit("\n");
        }
        let mut text: String = decimal_string(self.from_node_id);
        text.append("\t");
        text.append(decimal_string(self.to_node_id).as_str());
        text.append("\t");
        text.append(decimal_string(self.count).as_str());
        text.append("\t");
        text.append(self.kmer.as_str());
        text.append("\n");
        assert("\t"@ =~= seq!['\t']);
        assert("\n"@ =~= seq!['\n']);
        assert(text@ =~= line_text(self@));
        text
    }
}

impl AssemblyGraph {
    /// Whether the graph can be written: each k-mer has a symbol at least, so
    /// that its two nodes are defined, and the edges are few enough for each
    /// node to get an identifier.
    pub open spec fn writable(&self) -> bool {
        &&& self.wf()
        &&& ids_fit(self.edges())
        &&& forall|i: int| 0 <= i < self.edges().len() ==> (#[trigger] self.edges()[i]).0.len() >= 1
    }

    /// What the file of a graph of k-mers holds. A graph that was built for
    /// the length `k` can be written. Each of its lines holds a k-mer of `k`
    /// symbols with its count, the identifier of its first `k - 1` symbols and
    /// the identifier of its last `k - 1` symbols, and all lines take these
    /// identifiers from one valid assignment.
    pub proof fn lemma_lines_of_kmers(&self, index: FmIndex, k: nat)
        requires
            self.wf(),
            1 <= k,
            self@ == kmer_counts(index, k),
            ids_fit(self.edges()),
        ensures
            self.writable(),
            ids_valid(ids_after(self.edges())),
            forall|i: int|
                0 <= i < self.edges().len() ==> {
                    let line = #[trigger] lines_of(self.edges())[i];
                    &&& line.kmer.len() == k
                    &&& from_node(line.kmer) == line.kmer.subrange(0, k - 1)
                    &&& to_node(line.kmer) == line.kmer.subrange(1, k as int)
                    &&& self@.contains_key(line.kmer)
                    &&& line.count == self@[line.kmer]
                    &&& ids_after(self.edges()).contains_key(from_node(line.kmer))
                    &&& ids_after(self.edges()).contains_key(to_node(line.kmer))
                    &&& line.from_node_id == ids_after(self.edges())[from_node(line.kmer)]
                    &&& line.to_node_id == ids_after(self.edges())[to_node(line.kmer)]
                },
    {
        self.lemma_edges();
        self.lemma_edges_are_kmers(index, k);
        lemma_lines_agree(self.edges());
        assert forall|i: int| 0 <= i < self.edges().len() implies {
            let line = #[trigger] lines_of(self.edges())[i];
            &&& line.kmer.len() == k
            &&& from_node(line.kmer) == line.kmer.subrange(0, k - 1)
            &&& to_node(line.kmer) == line.kmer.subrange(1, k as int)
            &&& self@.contains_key(line.kmer)
            &&& line.count == self@[line.kmer]
        } by {
            let kmer = self.edges()[i].0;
            assert(kmer.len() == k);
            assert(from_node(kmer) =~= kmer.subrange(0, k - 1));
            assert(to_node(kmer) =~= kmer.subrange(1, k as int));
        }
    }

    /// The lines of the graph file, one for each edge, in the order of the
    /// edges. The nodes get their identifiers as the lines are made: for each
    /// edge first the node that it leaves, then the node that it enters; a
    /// node that has none yet gets the next number, from 2 on.
    pub fn edge_lines(&self) -> (lines: Vec<EdgeLine>)
        requires
            self.writable(),
        ensures
            lines@.len() == self.edges().len(),
            forall|i: int| 0 <= i < lines@.len() ==> (#[trigger] lines@[i])@ == line_of(self.edges(), i),
    {
        let ghost edges = self.edges();
        let edge_count: usize = self.edge_count();
        let mut string_id_map: StringIdMap = StringIdMap::new();
        let mut lines: Vec<EdgeLine> = Vec::new();
        let mut i: usize = 0;
        assert(ids_after(edges.take(0)) =~= Map::<Seq<char>, u64>::empty());
        while i < edge_count
            invariant
                i <= edge_count,
                edge_count == edges.len(),
                edges == self.edges(),
                self.writable(),
                string_id_map.wf(),
                string_id_map@ == ids_after(edges.take(i as int)),
                lines@.len() == i,
                forall|j: int| 0 <= j < i ==> (#[trigger] lines@[j])@ == line_of(edges, j),
            decreases edge_count - i,
        {
            let (string, count) = self.edge(i);
            let string_len: usize = string.as_str().unicode_len();
            assert(edges[i as int].0.len() >= 1);
            let from_node_string: String = String::from_str(
                string.as_str().substring_char(0, string_len - 1),
            );
            let to_node_string: String = String::from_str(
                string.as_str().substring_char(1, string_len),
            );
            proof {
                lemma_ids_grow(edges, i as int);
                assert(from_node_string@ =~= from_node(edges[i as int].0));
                assert(to_node_string@ =~= to_node(edges[i as int].0));
                assert(edges.take(i + 1).drop_last() =~= edges.take(i as int));
                lemma_interned_valid(string_id_map@, from_node_string@);
                lemma_interned_valid(
                    interned(string_id_map@, from_node_string@),
                    to_node_string@,
                );
            }
            let from_node_id: u64 = string_id_map.get_node_id(&from_node_string);
            let to_node_id: u64 = string_id_map.get_node_id(&to_node_string);
            lines.push(EdgeLine { from_node_id, to_node_id, count, kmer: string.clone() });
            i += 1;
        }
        lines
    }

    /// The text of the graph file: a line for each edge, in the order of the
    /// edges.
    pub fn wg_file_text(&self) -> (text: String)
        requires
            self.writable(),
        ensures
            text@ == lines_text(lines_of(self.edges())),
    {
        let lines: Vec<EdgeLine> = self.edge_lines();
        let ghost all = lines_of(self.edges());
        let mut text: String = String::new();
        let mut i: usize = 0;
        assert(all.take(0) =~= Seq::<EdgeFields>::empty());
        while i < lines.len()
            invariant
                i <= lines.len(),
                lines@.len() == all.len(),
                forall|j: int| 0 <= j < lines@.len() ==> (#[trigger] lines@[j])@ == all[j],
                text@ == lines_text(all.take(i as int)),
            decreases lines.len() - i,
        {
            let line: String = lines[i].text();
            text.append(line.as_str());
            proof {
                assert(all.take(i + 1).drop_last() =~= all.take(i as int));
                assert(all.take(i + 1).last() == all[i as int]);
            }
            i += 1;
        }
        assert(all.take(i as int) =~= all);
        text
    }
}

} // verus!
