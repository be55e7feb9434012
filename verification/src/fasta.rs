//! Assembling byte strings out of FASTA-style line lists.
//!
//! A reference file holds one record: its first line is a header and is
//! discarded, the remaining lines concatenate verbatim. A queries file
//! holds many records: each `>` line opens a record and names it, the
//! following lines up to the next `>` concatenate into its sequence, and
//! lines before the first `>` are ignored.

use vstd::prelude::*;

verus! {

/// The line lists as byte sequences.
pub open spec fn lines_view(v: Seq<Vec<u8>>) -> Seq<Seq<u8>> {
    v.map_values(|l: Vec<u8>| l@)
}

/// The concatenation of `lines[i..]`.
pub open spec fn concat_from(lines: Seq<Seq<u8>>, i: int) -> Seq<u8>
    decreases lines.len() - i,
{
    if i < 0 || i >= lines.len() {
        Seq::empty()
    } else {
        lines[i] + concat_from(lines, i + 1)
    }
}

/// The reference a line list denotes: everything but the header line,
/// concatenated.
pub open spec fn reference_of_lines(lines: Seq<Seq<u8>>) -> Seq<u8> {
    concat_from(lines, 1)
}

/// A line that opens a record.
pub open spec fn is_header(l: Seq<u8>) -> bool {
    l.len() > 0 && l[0] == 62u8
}

/// The concatenation of the body lines from `i` up to the next header.
pub open spec fn record_body(lines: Seq<Seq<u8>>, i: int) -> Seq<u8>
    decreases lines.len() - i,
{
    if i < 0 || i >= lines.len() || is_header(lines[i]) {
        Seq::empty()
    } else {
        lines[i] + record_body(lines, i + 1)
    }
}

/// One named query record.
pub struct QueryRecord {
    /// The record name: the header line with its `>` stripped.
    pub name: Vec<u8>,
    /// The record's sequence: its body lines concatenated.
    pub sequence: Vec<u8>,
}

/// The mathematical content of a record.
#[verifier::ext_equal]
pub struct QueryRecordView {
    /// The record name.
    pub name: Seq<u8>,
    /// The record's sequence.
    pub sequence: Seq<u8>,
}

impl View for QueryRecord {
    type V = QueryRecordView;

    open spec fn view(&self) -> QueryRecordView {
        QueryRecordView { name: self.name@, sequence: self.sequence@ }
    }
}

/// The records opened by the headers in `lines[i..]`, in file order.
pub open spec fn records_from(lines: Seq<Seq<u8>>, i: int) -> Seq<QueryRecordView>
    decreases lines.len() - i,
{
    if i < 0 || i >= lines.len() {
        Seq::empty()
    } else if is_header(lines[i]) {
        seq![
            QueryRecordView { name: lines[i].drop_first(), sequence: record_body(lines, i + 1) },
        ] + records_from(lines, i + 1)
    } else {
        records_from(lines, i + 1)
    }
}

/// The query records a line list denotes.
pub open spec fn records_of_lines(lines: Seq<Seq<u8>>) -> Seq<QueryRecordView> {
    records_from(lines, 0)
}

/// Concatenates every line after the header line into the reference
/// string.
pub fn assemble_reference(lines: &Vec<Vec<u8>>) -> (r: Vec<u8>)
    ensures
        r@ == reference_of_lines(lines_view(lines@)),
{
    let ghost lv = lines_view(lines@);
    let n = lines.len();
    let mut r: Vec<u8> = Vec::new();
    let mut i: usize = 1;
    proof {
        if n < 1 {
            assert(reference_of_lines(lv) =~= Seq::<u8>::empty());
        }
    }
    while i < n
        invariant
            1 <= i <= n || (n < 1 && i == 1),
            n == lines@.len(),
            lv == lines_view(lines@),
            reference_of_lines(lv) == r@ + concat_from(lv, i as int),
        decreases n - i,
    {
        let line = &lines[i];
        let ghost before = r@;
        let mut x: usize = 0;
        let ll = line.len();
        while x < ll
            invariant
                x <= ll == line@.len(),
                line@ == lines@[i as int]@,
                r@ == before + line@.subrange(0, x as int),
            decreases ll - x,
        {
            r.push(line[x]);
            proof {
                assert(r@ =~= before + line@.subrange(0, x + 1));
            }
            x = x + 1;
        }
        proof {
            assert(line@.subrange(0, ll as int) =~= line@);
            assert(lv[i as int] == line@);
            assert(concat_from(lv, i as int) == lv[i as int] + concat_from(lv, i + 1));
            assert(before + (lv[i as int] + concat_from(lv, i + 1)) =~= (before + lv[i as int])
                + concat_from(lv, i + 1));
        }
        i = i + 1;
    }
    proof {
        assert(concat_from(lv, i as int) =~= Seq::<u8>::empty());
        assert(r@ + Seq::<u8>::empty() =~= r@);
    }
    r
}

/// Splits a queries line list into its named records: one per `>` line,
/// each with the following non-`>` lines concatenated as its sequence.
pub fn parse_queries(lines: &Vec<Vec<u8>>) -> (r: Vec<QueryRecord>)
    ensures
        r@.map_values(|q: QueryRecord| q@) == records_of_lines(lines_view(lines@)),
{
    let ghost lv = lines_view(lines@);
    let n = lines.len();
    let mut r: Vec<QueryRecord> = Vec::new();
    let mut i: usize = 0;
    proof {
        assert(r@.map_values(|q: QueryRecord| q@) =~= Seq::<QueryRecordView>::empty());
    }
    while i < n
        invariant
            i <= n == lines@.len(),
            lv == lines_view(lines@),
            records_of_lines(lv) == r@.map_values(|q: QueryRecord| q@) + records_from(
                lv,
                i as int,
            ),
        decreases n - i,
    {
        let line = &lines[i];
        let is_hdr = line.len() > 0 && line[0] == 62u8;
        proof {
            assert(lv[i as int] == line@);
            assert(is_hdr == is_header(lv[i as int]));
        }
        if is_hdr {
            // the name: the header line without its leading marker
            let mut name: Vec<u8> = Vec::new();
            let ll = line.len();
            let mut x: usize = 1;
            while x < ll
                invariant
                    1 <= x <= ll == line@.len(),
                    line@ == lines@[i as int]@,
                    name@ == line@.subrange(1, x as int),
                decreases ll - x,
            {
                name.push(line[x]);
                proof {
                    assert(name@ =~= line@.subrange(1, x + 1));
                }
                x = x + 1;
            }
            proof {
                assert(line@.subrange(1, ll as int) =~= line@.drop_first());
            }
            // the sequence: the following lines up to the next header
            let mut sequence: Vec<u8> = Vec::new();
            let mut j = i + 1;
            proof {
                assert(record_body(lv, i + 1) == sequence@ + record_body(lv, i + 1));
                assert(sequence@ + record_body(lv, i + 1) =~= record_body(lv, i + 1));
            }
            while j < n && !(lines[j].len() > 0 && lines[j][0] == 62u8)
                invariant
                    i + 1 <= j <= n || j == i + 1,
                    n == lines@.len(),
                    lv == lines_view(lines@),
                    record_body(lv, i + 1) == sequence@ + record_body(lv, j as int),
                decreases n - j,
            {
                let body_line = &lines[j];
                let ghost before = sequence@;
                let bl = body_line.len();
                let mut x: usize = 0;
                while x < bl
                    invariant
                        x <= bl == body_line@.len(),
                        body_line@ == lines@[j as int]@,
                        sequence@ == before + body_line@.subrange(0, x as int),
                    decreases bl - x,
                {
                    sequence.push(body_line[x]);
                    proof {
                        assert(sequence@ =~= before + body_line@.subrange(0, x + 1));
                    }
                    x = x + 1;
                }
                proof {
                    assert(body_line@.subrange(0, bl as int) =~= body_line@);
                    assert(lv[j as int] == body_line@);
                    assert(!is_header(lv[j as int]));
                    assert(record_body(lv, j as int) == lv[j as int] + record_body(lv, j + 1));
                    assert(before + (lv[j as int] + record_body(lv, j + 1)) =~= (before
                        + lv[j as int]) + record_body(lv, j + 1));
                }
                j = j + 1;
            }
            proof {
                if j < n {
                    assert(is_header(lv[j as int]));
                }
                assert(record_body(lv, j as int) =~= Seq::<u8>::empty());
                assert(sequence@ + Seq::<u8>::empty() =~= sequence@);
                assert(sequence@ == record_body(lv, i + 1));
            }
            let ghost old_r = r@;
            let rec = QueryRecord { name, sequence };
            proof {
                assert(rec@ =~= (QueryRecordView {
                    name: lv[i as int].drop_first(),
                    sequence: record_body(lv, i + 1),
                }));
            }
            r.push(rec);
            proof {
                assert(r@.map_values(|q: QueryRecord| q@) =~= old_r.map_values(
                    |q: QueryRecord| q@,
                ).push(rec@));
                assert(old_r.map_values(|q: QueryRecord| q@) + (seq![rec@] + records_from(
                    lv,
                    i + 1,
                )) =~= old_r.map_values(|q: QueryRecord| q@).push(rec@) + records_from(lv, i + 1));
            }
        }
        i = i + 1;
    }
    proof {
        assert(records_from(lv, i as int) =~= Seq::<QueryRecordView>::empty());
        assert(r@.map_values(|q: QueryRecord| q@) + Seq::<QueryRecordView>::empty()
            =~= r@.map_values(|q: QueryRecord| q@));
    }
    r
}

} // verus!
