//! Mapping tables: a token-to-name lookup table, the loader that reads one
//! from comma-separated text, and the set of three tables (fields, methods,
//! parameters) that a remapping session carries.

use vstd::prelude::*;
use crate::bytes::{find_byte, find_byte_from, lemma_find_byte_from, extend_range};

verus! {

/// The views of a sequence of byte vectors.
pub open spec fn seq_views(s: Seq<Vec<u8>>) -> Seq<Seq<u8>> {
    Seq::new(s.len(), |i: int| s[i]@)
}

/// The views of a sequence of byte-vector pairs.
pub open spec fn pair_views(s: Seq<(Vec<u8>, Vec<u8>)>) -> Seq<(Seq<u8>, Seq<u8>)> {
    Seq::new(s.len(), |i: int| (s[i].0@, s[i].1@))
}

/// The map an association list denotes when its pairs are inserted in
/// order: a later pair with the same key overrides an earlier one.
pub open spec fn assoc_map(pairs: Seq<(Seq<u8>, Seq<u8>)>) -> Map<Seq<u8>, Seq<u8>>
    decreases pairs.len(),
{
    if pairs.len() == 0 {
        Map::empty()
    } else {
        assoc_map(pairs.drop_last()).insert(pairs.last().0, pairs.last().1)
    }
}

pub proof fn lemma_assoc_map_hit(pairs: Seq<(Seq<u8>, Seq<u8>)>, k: Seq<u8>, j: int)
    requires
        0 <= j < pairs.len(),
        pairs[j].0 == k,
        forall|m: int| j < m < pairs.len() ==> (#[trigger] pairs[m].0) != k,
    ensures
        assoc_map(pairs).contains_key(k),
        assoc_map(pairs)[k] == pairs[j].1,
    decreases pairs.len(),
{
    if j == pairs.len() - 1 {
    } else {
        assert(pairs.drop_last()[j].0 == k);
        lemma_assoc_map_hit(pairs.drop_last(), k, j);
    }
}

pub proof fn lemma_assoc_map_miss(pairs: Seq<(Seq<u8>, Seq<u8>)>, k: Seq<u8>)
    requires
        forall|m: int| 0 <= m < pairs.len() ==> (#[trigger] pairs[m].0) != k,
    ensures
        !assoc_map(pairs).contains_key(k),
    decreases pairs.len(),
{
    if pairs.len() > 0 {
        assert(forall|m: int|
            0 <= m < pairs.drop_last().len() ==> (#[trigger] pairs.drop_last()[m].0) != k);
        lemma_assoc_map_miss(pairs.drop_last(), k);
    }
}

/// A lookup table from obfuscated token to replacement name. Later
/// insertions for the same token override earlier ones.
pub struct Mapping {
    pairs: Vec<(Vec<u8>, Vec<u8>)>,
}

impl View for Mapping {
    type V = Map<Seq<u8>, Seq<u8>>;

    closed spec fn view(&self) -> Map<Seq<u8>, Seq<u8>> {
        assoc_map(pair_views(self.pairs@))
    }
}

impl Mapping {
    /// An empty table.
    pub fn new() -> (r: Mapping)
        ensures
            r@ == Map::<Seq<u8>, Seq<u8>>::empty(),
    {
        Mapping { pairs: Vec::new() }
    }

    /// Insert `tok -> name`; a later insertion for the same token wins.
    pub fn insert(&mut self, tok: Vec<u8>, name: Vec<u8>)
        ensures
            final(self)@ == old(self)@.insert(tok@, name@),
    {
        let ghost before = pair_views(self.pairs@);
        self.pairs.push((tok, name));
        proof {
            assert(pair_views(self.pairs@).drop_last() =~= before);
        }
    }

    /// Look the token up: the name of the last insertion for it, if any.
    pub fn get(&self, tok: &Vec<u8>) -> (r: Option<&Vec<u8>>)
        ensures
            match r {
                Some(v) => self@.contains_key(tok@) && v@ == self@[tok@],
                None => !self@.contains_key(tok@),
            },
    {
        let mut j: usize = self.pairs.len();
        while j > 0
            invariant
                j <= self.pairs@.len(),
                forall|m: int|
                    j <= m < self.pairs@.len() ==> (#[trigger] pair_views(self.pairs@)[m].0)
                        != tok@,
            decreases j,
        {
            j = j - 1;
            if crate::bytes::bytes_eq(&self.pairs[j].0, tok) {
                proof {
                    lemma_assoc_map_hit(pair_views(self.pairs@), tok@, j as int);
                }
                return Some(&self.pairs[j].1);
            }
        }
        proof {
            lemma_assoc_map_miss(pair_views(self.pairs@), tok@);
        }
        None
    }
}

/// A line with its trailing carriage return removed, if it has one.
pub open spec fn strip_cr(l: Seq<u8>) -> Seq<u8> {
    if l.len() > 0 && l.last() == 13u8 {
        l.drop_last()
    } else {
        l
    }
}

/// The lines of `s` from position `pos` on: each line runs to the next
/// newline byte or to the end, and loses a trailing carriage return.
pub open spec fn split_lines_at(s: Seq<u8>, pos: int) -> Seq<Seq<u8>>
    decreases s.len() - pos,
    via split_lines_at_decreases
{
    if pos < 0 || pos >= s.len() {
        Seq::empty()
    } else {
        let i = find_byte_from(s, 10u8, pos);
        if i < s.len() {
            seq![strip_cr(s.subrange(pos, i))] + split_lines_at(s, i + 1)
        } else {
            seq![strip_cr(s.subrange(pos, s.len() as int))]
        }
    }
}

#[via_fn]
proof fn split_lines_at_decreases(s: Seq<u8>, pos: int) {
    if 0 <= pos < s.len() {
        lemma_find_byte_from(s, 10u8, pos);
    }
}

/// The lines of a whole text stream.
pub open spec fn split_lines(s: Seq<u8>) -> Seq<Seq<u8>> {
    split_lines_at(s, 0)
}

/// The token and name of one tabular row: the text before the first comma
/// and the text between the first and the second comma. A row without a
/// comma has no second field and is malformed.
pub open spec fn row_fields(line: Seq<u8>) -> Option<(Seq<u8>, Seq<u8>)> {
    let c1 = find_byte_from(line, 44u8, 0);
    if c1 >= line.len() {
        None
    } else {
        let c2 = find_byte_from(line, 44u8, c1 + 1);
        Some((line.subrange(0, c1), line.subrange(c1 + 1, c2)))
    }
}

/// The well-formed rows of a sequence of lines, in order.
pub open spec fn table_rows(lines: Seq<Seq<u8>>) -> Seq<(Seq<u8>, Seq<u8>)>
    decreases lines.len(),
{
    if lines.len() == 0 {
        Seq::empty()
    } else {
        let rest = table_rows(lines.drop_last());
        match row_fields(lines.last()) {
            Some(p) => rest.push(p),
            None => rest,
        }
    }
}

/// The mapping a tabular text stream denotes: the first line is a header
/// and is skipped; of the remaining lines the well-formed ones are
/// inserted in order, the last insertion for a token winning; malformed
/// lines are skipped.
pub open spec fn table_map(content: Seq<u8>) -> Map<Seq<u8>, Seq<u8>> {
    if split_lines(content).len() == 0 {
        Map::empty()
    } else {
        assoc_map(table_rows(split_lines(content).drop_first()))
    }
}

/// Split a text buffer into its lines, as executable code.
pub fn split_lines_exec(s: &Vec<u8>) -> (r: Vec<Vec<u8>>)
    ensures
        seq_views(r@) == split_lines(s@),
{
    let mut out: Vec<Vec<u8>> = Vec::new();
    let mut pos: usize = 0;
    while pos < s.len()
        invariant
            pos <= s@.len(),
            seq_views(out@) + split_lines_at(s@, pos as int) == split_lines(s@),
        decreases s.len() - pos,
    {
        proof {
            lemma_find_byte_from(s@, 10u8, pos as int);
        }
        let i = find_byte(s, 10u8, pos);
        let mut line: Vec<u8> = Vec::new();
        extend_range(&mut line, s, pos, i);
        if line.len() > 0 && line[line.len() - 1] == 13u8 {
            let _ = line.pop();
            proof {
                assert(line@ =~= strip_cr(s@.subrange(pos as int, i as int)));
            }
        }
        let ghost prev = seq_views(out@);
        out.push(line);
        proof {
            assert(seq_views(out@) =~= prev + seq![line@]);
        }
        if i < s.len() {
            pos = i + 1;
            proof {
                assert(seq_views(out@) + split_lines_at(s@, pos as int) =~= split_lines(s@));
            }
        } else {
            pos = s.len();
            proof {
                assert(seq_views(out@) + split_lines_at(s@, pos as int) =~= split_lines(s@));
            }
        }
    }
    proof {
        assert(seq_views(out@) + split_lines_at(s@, pos as int) =~= seq_views(out@));
        assert(seq_views(out@) =~= split_lines(s@));
    }
    out
}

/// Parse one tabular row into its first two comma-separated fields.
pub fn parse_row(line: &Vec<u8>) -> (r: Option<(Vec<u8>, Vec<u8>)>)
    ensures
        match (r, row_fields(line@)) {
            (Some(p), Some(q)) => p.0@ == q.0 && p.1@ == q.1,
            (None, None) => true,
            _ => false,
        },
{
    let c1 = find_byte(line, 44u8, 0);
    proof {
        lemma_find_byte_from(line@, 44u8, 0);
    }
    if c1 >= line.len() {
        return None;
    }
    proof {
        lemma_find_byte_from(line@, 44u8, c1 + 1);
    }
    let c2 = find_byte(line, 44u8, c1 + 1);
    let mut tok: Vec<u8> = Vec::new();
    extend_range(&mut tok, line, 0, c1);
    let mut name: Vec<u8> = Vec::new();
    extend_range(&mut name, line, c1 + 1, c2);
    Some((tok, name))
}

/// Load one mapping table from tabular text: the header line and the
/// malformed rows are skipped, the last row for a token wins.
pub fn load_table(content: &Vec<u8>) -> (m: Mapping)
    ensures
        m@ == table_map(content@),
{
    let lines = split_lines_exec(content);
    let mut m = Mapping::new();
    if lines.len() == 0 {
        return m;
    }
    let mut i: usize = 1;
    while i < lines.len()
        invariant
            1 <= i <= lines@.len(),
            m@ == assoc_map(table_rows(seq_views(lines@).subrange(1, i as int))),
        decreases lines.len() - i,
    {
        let ghost done = seq_views(lines@).subrange(1, i as int);
        match parse_row(&lines[i]) {
            Some(p) => {
                let (tok, name) = p;
                let ghost tv = tok@;
                let ghost nv = name@;
                m.insert(tok, name);
                proof {
                    let next = seq_views(lines@).subrange(1, i + 1);
                    assert(next.drop_last() =~= done);
                    assert(next.last() == seq_views(lines@)[i as int]);
                    assert(table_rows(next) =~= table_rows(done).push((tv, nv)));
                    assert(table_rows(next).drop_last() =~= table_rows(done));
                    assert(table_rows(next).last() == (tv, nv));
                    assert(assoc_map(table_rows(next)) == assoc_map(table_rows(done)).insert(
                        tv,
                        nv,
                    ));
                }
            },
            None => {
                proof {
                    let next = seq_views(lines@).subrange(1, i + 1);
                    assert(next.drop_last() =~= done);
                    assert(table_rows(next) =~= table_rows(done));
                }
            },
        }
        i += 1;
    }
    proof {
        assert(seq_views(lines@).subrange(1, lines@.len() as int) =~= seq_views(
            lines@,
        ).drop_first());
        assert(seq_views(lines@).len() == split_lines(content@).len());
    }
    m
}

/// The three lookup tables of a remapping session, one per token category.
pub struct MappingSet {
    pub fields: Mapping,
    pub methods: Mapping,
    pub params: Mapping,
}

/// The mathematical content of a `MappingSet`: three token-to-name maps.
pub struct MappingSetView {
    pub fields: Map<Seq<u8>, Seq<u8>>,
    pub methods: Map<Seq<u8>, Seq<u8>>,
    pub params: Map<Seq<u8>, Seq<u8>>,
}

impl View for MappingSet {
    type V = MappingSetView;

    open spec fn view(&self) -> MappingSetView {
        MappingSetView { fields: self.fields@, methods: self.methods@, params: self.params@ }
    }
}

impl MappingSet {
    /// Three empty tables: every token then passes through unchanged.
    pub fn empty() -> (r: MappingSet)
        ensures
            r@.fields == Map::<Seq<u8>, Seq<u8>>::empty(),
            r@.methods == Map::<Seq<u8>, Seq<u8>>::empty(),
            r@.params == Map::<Seq<u8>, Seq<u8>>::empty(),
    {
        MappingSet { fields: Mapping::new(), methods: Mapping::new(), params: Mapping::new() }
    }
}

} // verus!
