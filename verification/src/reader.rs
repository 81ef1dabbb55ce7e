use vstd::prelude::*;

use crate::freq::{add_read_votes, hit};
use crate::Threshold;

verus! {

/// Abstract state of one pass over the input records: per-motif vote
/// counts, the number of valid reads processed, the length table, and the
/// intermediate sink contents handed to the external masking tool.
pub struct ProcessModel {
    pub votes: Seq<u64>,
    pub total: u64,
    pub lengths: Seq<(Seq<u8>, u64)>,
    pub fasta: Seq<u8>,
}

pub open spec fn init_model() -> ProcessModel {
    ProcessModel {
        votes: Seq::new(80, |c: int| 0u64),
        total: 0,
        lengths: Seq::empty(),
        fasta: Seq::empty(),
    }
}

/// The identifier of a record: its header line with the one-byte sentinel
/// marker stripped.
pub open spec fn record_id(header: Seq<u8>) -> Seq<u8> {
    if header.len() >= 1 {
        header.drop_first()
    } else {
        Seq::empty()
    }
}

/// Effect of one valid record on the pass state: one vote per motif that is
/// a hit for this read, one more read in the total, the read's length
/// recorded, and a header/sequence line pair appended to the sink.
pub open spec fn step_read(m: ProcessModel, header: Seq<u8>, sq: Seq<u8>, t: Threshold) -> ProcessModel {
    ProcessModel {
        votes: Seq::new(
            80,
            |c: int|
                if hit(sq, c, t) {
                    (m.votes[c] + 1) as u64
                } else {
                    m.votes[c]
                },
        ),
        total: (m.total + 1) as u64,
        lengths: m.lengths.push((record_id(header), sq.len() as u64)),
        fasta: m.fasta + seq![62u8] + record_id(header) + seq![10u8] + sq + seq![10u8],
    }
}

/// Pass over the 4-line records of `lines` starting at line `idx`, with
/// accumulated state `m`. A record needs at least a header and a sequence
/// line; the separator and quality lines are consumed unread. A record
/// whose sequence is shorter than 2 bytes is skipped without being counted.
/// The pass stops once `max` valid records have been produced or the lines
/// run out.
pub open spec fn process_from(
    lines: Seq<Seq<u8>>,
    idx: int,
    m: ProcessModel,
    max: u64,
    t: Threshold,
) -> ProcessModel
    decreases lines.len() + 4 - idx,
{
    if idx < 0 || idx + 1 >= lines.len() || m.total >= max {
        m
    } else {
        let sq = lines[idx + 1];
        if sq.len() < 2 {
            process_from(lines, idx + 4, m, max, t)
        } else {
            process_from(lines, idx + 4, step_read(m, lines[idx], sq, t), max, t)
        }
    }
}

/// The length table gains exactly one entry per read that the pass counts:
/// however the pass ends, reads processed and lengths recorded grow in step.
pub proof fn lemma_total_matches_lengths(
    lines: Seq<Seq<u8>>,
    idx: int,
    m: ProcessModel,
    max: u64,
    t: Threshold,
)
    ensures
        process_from(lines, idx, m, max, t).total - m.total == process_from(
            lines,
            idx,
            m,
            max,
            t,
        ).lengths.len() - m.lengths.len(),
        process_from(lines, idx, m, max, t).total >= m.total,
    decreases lines.len() + 4 - idx,
{
    if !(idx < 0 || idx + 1 >= lines.len() || m.total >= max) {
        let sq = lines[idx + 1];
        if sq.len() < 2 {
            lemma_total_matches_lengths(lines, idx + 4, m, max, t);
        } else {
            lemma_total_matches_lengths(lines, idx + 4, step_read(m, lines[idx], sq, t), max, t);
        }
    }
}

/// The result of the read pass as plain values.
pub struct ProcessOutput {
    pub votes: Vec<u64>,
    pub total_reads: u64,
    pub read_lengths: Vec<(Vec<u8>, u64)>,
    pub fasta: Vec<u8>,
}

pub open spec fn table_view(v: Seq<(Vec<u8>, u64)>) -> Seq<(Seq<u8>, u64)> {
    v.map(|i: int, p: (Vec<u8>, u64)| (p.0@, p.1))
}

pub open spec fn output_model(o: ProcessOutput) -> ProcessModel {
    ProcessModel {
        votes: o.votes@,
        total: o.total_reads,
        lengths: table_view(o.read_lengths@),
        fasta: o.fasta@,
    }
}

/// Appends all of `src` to `dst`.
pub fn push_all(dst: &mut Vec<u8>, src: &Vec<u8>)
    ensures
        final(dst)@ == old(dst)@ + src@,
{
    let ghost dst0 = dst@;
    let mut k: usize = 0;
    while k < src.len()
        invariant
            k <= src.len(),
            dst@ == dst0 + src@.subrange(0, k as int),
        decreases src.len() - k,
    {
        dst.push(src[k]);
        assert(dst@ =~= dst0 + src@.subrange(0, k + 1));
        k += 1;
    }
    assert(dst@ =~= dst0 + src@);
}

/// The record identifier: the header without its first byte.
fn strip_first(header: &Vec<u8>) -> (r: Vec<u8>)
    ensures
        r@ == record_id(header@),
{
    let mut r: Vec<u8> = Vec::new();
    let mut k: usize = 1;
    if header.len() == 0 {
        assert(r@ =~= record_id(header@));
        return r;
    }
    while k < header.len()
        invariant
            1 <= k <= header.len(),
            r@ == header@.subrange(1, k as int),
        decreases header.len() - k,
    {
        r.push(header[k]);
        assert(r@ =~= header@.subrange(1, k + 1));
        k += 1;
    }
    assert(r@ =~= record_id(header@));
    r
}

/// One pass over a 4-line-per-record stream: skips the first `skip_reads`
/// records, then produces up to `max_reads` valid records. For each valid
/// record it counts motif votes, records the read length, and appends the
/// read to the intermediate sink in header/sequence line-pair form. The
/// whole effect is pinned by `process_from` on the line sequence; votes
/// never exceed the number of reads processed.
pub fn process_reads_and_write_fasta(
    lines: &Vec<Vec<u8>>,
    max_reads: u64,
    threshold: &Threshold,
    skip_reads: u64,
) -> (r: ProcessOutput)
    requires
        threshold.wf(),
    ensures
        output_model(r) == process_from(
            lines.deep_view(),
            4 * (skip_reads as int),
            init_model(),
            max_reads,
            *threshold,
        ),
        r.votes.len() == 80,
        forall|c: int| 0 <= c < 80 ==> r.votes[c] <= r.total_reads,
        r.total_reads <= max_reads,
        r.read_lengths.len() == r.total_reads,
{
    let n = lines.len();
    let ghost dv = lines.deep_view();
    let ghost goal = process_from(dv, 4 * (skip_reads as int), init_model(), max_reads, *threshold);
    proof {
        assert(dv.len() == n);
    }
    let mut idx: usize;
    if skip_reads <= (n as u64) / 4 {
        idx = (skip_reads as usize) * 4;
    } else {
        idx = n;
        proof {
            assert(4 * (skip_reads as int) > n);
            assert(process_from(dv, n as int, init_model(), max_reads, *threshold)
                == init_model());
            assert(process_from(dv, 4 * (skip_reads as int), init_model(), max_reads, *threshold)
                == init_model());
        }
    }
    let mut votes: Vec<u64> = Vec::new();
    let mut j: usize = 0;
    while j < 80
        invariant
            votes.len() == j <= 80,
            forall|c: int| 0 <= c < j ==> votes[c] == 0,
        decreases 80 - j,
    {
        votes.push(0);
        j += 1;
    }
    let mut total: u64 = 0;
    let mut read_lengths: Vec<(Vec<u8>, u64)> = Vec::new();
    let mut fasta: Vec<u8> = Vec::new();
    proof {
        assert(votes@ =~= init_model().votes);
        assert(table_view(read_lengths@) =~= init_model().lengths);
        assert(ProcessModel {
            votes: votes@,
            total: total,
            lengths: table_view(read_lengths@),
            fasta: fasta@,
        } == init_model());
    }
    while idx < n && n - idx >= 2 && total < max_reads
        invariant
            n == lines.len(),
            dv == lines.deep_view(),
            idx <= n,
            votes.len() == 80,
            total <= max_reads,
            threshold.wf(),
            read_lengths.len() == total,
            forall|c: int| 0 <= c < 80 ==> votes[c] <= total,
            goal == process_from(
                dv,
                idx as int,
                ProcessModel {
                    votes: votes@,
                    total: total,
                    lengths: table_view(read_lengths@),
                    fasta: fasta@,
                },
                max_reads,
                *threshold,
            ),
        decreases n - idx,
    {
        let ghost cur = ProcessModel {
            votes: votes@,
            total: total,
            lengths: table_view(read_lengths@),
            fasta: fasta@,
        };
        let header = &lines[idx];
        let sq = &lines[idx + 1];
        proof {
            assert(dv[idx as int] =~= header@);
            assert(dv[idx as int + 1] =~= sq@);
        }
        if sq.len() >= 2 {
            let id = strip_first(header);
            fasta.push(62);
            push_all(&mut fasta, &id);
            fasta.push(10);
            push_all(&mut fasta, sq);
            fasta.push(10);
            add_read_votes(&mut votes, sq, threshold);
            read_lengths.push((id, sq.len() as u64));
            total = total + 1;
            proof {
                let m2 = step_read(cur, dv[idx as int], dv[idx as int + 1], *threshold);
                assert(votes@ =~= m2.votes);
                assert(table_view(read_lengths@) =~= m2.lengths);
                assert(fasta@ =~= m2.fasta);
                assert(ProcessModel {
                    votes: votes@,
                    total: total,
                    lengths: table_view(read_lengths@),
                    fasta: fasta@,
                } == m2);
            }
        }
        let ghost m2 = ProcessModel {
            votes: votes@,
            total: total,
            lengths: table_view(read_lengths@),
            fasta: fasta@,
        };
        proof {
            assert(process_from(dv, idx as int, cur, max_reads, *threshold) == process_from(
                dv,
                idx as int + 4,
                m2,
                max_reads,
                *threshold,
            ));
        }
        if n - idx >= 4 {
            idx = idx + 4;
        } else {
            proof {
                assert(process_from(dv, idx as int + 4, m2, max_reads, *threshold) == m2);
                assert(process_from(dv, n as int, m2, max_reads, *threshold) == m2);
            }
            idx = n;
        }
    }
    let ghost m_end = ProcessModel {
        votes: votes@,
        total: total,
        lengths: table_view(read_lengths@),
        fasta: fasta@,
    };
    proof {
        assert(process_from(dv, idx as int, m_end, max_reads, *threshold) == m_end);
    }
    let r = ProcessOutput { votes, total_reads: total, read_lengths, fasta };
    proof {
        assert(output_model(r) == m_end);
    }
    r
}

} // verus!
