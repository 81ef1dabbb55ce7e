use vstd::prelude::*;

use vstd::arithmetic::div_mod::{lemma_div_is_ordered, lemma_fundamental_div_mod_converse};
use vstd::seq_lib::group_to_multiset_ensures;

use crate::motif::{label_of, label_of_code};
use crate::reader::{table_view, push_all};

verus! {

/// The reserved label of the low-complexity entry, as bytes.
pub open spec fn low_label() -> Seq<u8> {
    seq![76u8, 111u8, 119u8, 67u8, 111u8, 109u8, 112u8, 108u8, 101u8, 120u8, 105u8, 116u8, 121u8]
}

fn low_label_bytes() -> (r: Vec<u8>)
    ensures
        r@ == low_label(),
{
    let mut r: Vec<u8> = Vec::new();
    r.push(76);
    r.push(111);
    r.push(119);
    r.push(67);
    r.push(111);
    r.push(109);
    r.push(112);
    r.push(108);
    r.push(101);
    r.push(120);
    r.push(105);
    r.push(116);
    r.push(121);
    proof {
        assert(r@ =~= low_label());
    }
    r
}

/// The population percentage `votes / n * 100`, kept exactly as an integer
/// scaled by 10000 (four decimal places), rounded to nearest with halves
/// rounded up. A zero-read run yields 0 rather than an indeterminate value.
pub open spec fn pct_scaled(votes: u64, n: u64) -> u64 {
    if n == 0 {
        0
    } else {
        ((2 * votes * 1000000 + n) / (2 * n)) as u64
    }
}

/// The scaled percentage of `votes` out of `n` reads.
pub fn pct_of(votes: u64, n: u64) -> (r: u64)
    requires
        votes <= n,
    ensures
        r == pct_scaled(votes, n),
        r <= 1000000,
{
    if n == 0 {
        0
    } else {
        let num: u128 = 2 * (votes as u128) * 1000000 + (n as u128);
        let den: u128 = 2 * (n as u128);
        let q = num / den;
        proof {
            assert(num as int <= 2000001 * (n as int));
            lemma_div_is_ordered(num as int, 2000001 * (n as int), den as int);
            lemma_fundamental_div_mod_converse(
                2000001 * (n as int),
                den as int,
                1000000,
                n as int,
            );
        }
        q as u64
    }
}

/// The fixed motif space: all 80 motifs in code order, each with
/// proportion zero.
pub fn initialize_all_motifs() -> (r: Vec<(Vec<u8>, u64)>)
    ensures
        r.len() == 80,
        forall|c: int| 0 <= c < 80 ==> r[c].0@ == label_of_code(c) && r[c].1 == 0,
{
    let mut r: Vec<(Vec<u8>, u64)> = Vec::new();
    let mut c: u8 = 0;
    while c < 80
        invariant
            r.len() == c <= 80,
            forall|k: int| 0 <= k < c ==> r[k].0@ == label_of_code(k) && r[k].1 == 0,
        decreases 80 - c,
    {
        r.push((label_of(c), 0));
        c += 1;
    }
    r
}

/// The 81-entry result table: the 80 fixed motifs in code order with their
/// population percentages, then the low-complexity entry under its reserved
/// label. Absent motifs keep percentage zero.
pub fn build_result_table(votes: &Vec<u64>, low_complexity: u64, total: u64) -> (r: Vec<
    (Vec<u8>, u64),
>)
    requires
        votes.len() == 80,
        forall|c: int| 0 <= c < 80 ==> votes[c] <= total,
        low_complexity <= total,
    ensures
        r.len() == 81,
        forall|c: int|
            0 <= c < 80 ==> r[c].0@ == label_of_code(c) && r[c].1 == pct_scaled(votes[c], total),
        r[80].0@ == low_label() && r[80].1 == pct_scaled(low_complexity, total),
{
    let mut r: Vec<(Vec<u8>, u64)> = Vec::new();
    let mut c: u8 = 0;
    while c < 80
        invariant
            r.len() == c <= 80,
            votes.len() == 80,
            forall|k: int| 0 <= k < 80 ==> votes[k] <= total,
            forall|k: int|
                0 <= k < c ==> r[k].0@ == label_of_code(k) && r[k].1 == pct_scaled(
                    votes[k],
                    total,
                ),
        decreases 80 - c,
    {
        let p = pct_of(votes[c as usize], total);
        r.push((label_of(c), p));
        c += 1;
    }
    r.push((low_label_bytes(), pct_of(low_complexity, total)));
    r
}

/// Sorts the result table by proportion, non-increasing. The output is a
/// permutation of the input; the relative order of equal proportions is not
/// specified.
pub fn sort_by_proportion_desc(table: Vec<(Vec<u8>, u64)>) -> (r: Vec<(Vec<u8>, u64)>)
    ensures
        r.len() == table.len(),
        forall|i: int, j: int| 0 <= i <= j < r@.len() ==> r[i].1 >= r[j].1,
        table_view(r@).to_multiset() == table_view(table@).to_multiset(),
{
    broadcast use group_to_multiset_ensures;

    let ghost orig = table_view(table@).to_multiset();
    let mut rest = table;
    let mut r: Vec<(Vec<u8>, u64)> = Vec::new();
    proof {
        assert(table_view(r@) =~~= Seq::<(Seq<u8>, u64)>::empty());
        assert(table_view(r@).to_multiset().add(table_view(rest@).to_multiset()) =~= orig);
    }
    while rest.len() > 0
        invariant
            table_view(r@).to_multiset().add(table_view(rest@).to_multiset()) == orig,
            r.len() + rest.len() == orig.len(),
            forall|i: int, j: int| 0 <= i <= j < r@.len() ==> r[i].1 >= r[j].1,
            forall|i: int, j: int|
                0 <= i < r@.len() && 0 <= j < rest@.len() ==> r[i].1 >= rest[j].1,
        decreases rest.len(),
    {
        let mut m: usize = 0;
        let mut k: usize = 1;
        while k < rest.len()
            invariant
                m < k <= rest.len(),
                rest.len() >= 1,
                forall|j: int| 0 <= j < k ==> rest[j].1 <= rest[m as int].1,
            decreases rest.len() - k,
        {
            if rest[k].1 > rest[m].1 {
                m = k;
            }
            k += 1;
        }
        let ghost rest0 = table_view(rest@);
        let ghost r0 = table_view(r@);
        let ghost orest = rest@;
        let e = rest.remove(m);
        r.push(e);
        proof {
            broadcast use group_to_multiset_ensures;

            let x = rest0[m as int];
            orest.remove_ensures(m as int);
            rest0.remove_ensures(m as int);
            assert forall|j: int| 0 <= j < table_view(rest@).len() implies table_view(
                rest@,
            )[j] == rest0.remove(m as int)[j] by {
                if j < m {
                    assert(rest@[j] == orest[j]);
                    assert(rest0.remove(m as int)[j] == rest0[j]);
                } else {
                    assert(rest@[j] == orest[j + 1]);
                    assert(rest0.remove(m as int)[j] == rest0[j + 1]);
                }
            }
            assert(table_view(rest@) =~= rest0.remove(m as int));
            assert forall|j: int| 0 <= j < table_view(r@).len() implies table_view(r@)[j]
                == r0.push(x)[j] by {}
            assert(table_view(r@) =~= r0.push(x));
            assert(rest0.contains(x));
            assert(rest0.to_multiset().count(x) >= 1);
            assert(r0.push(x).to_multiset() =~= r0.to_multiset().insert(x));
            assert(rest0.remove(m as int).to_multiset() =~= rest0.to_multiset().remove(x));
            assert(table_view(r@).to_multiset() =~= r0.to_multiset().insert(x));
            assert(table_view(rest@).to_multiset() =~= rest0.to_multiset().remove(x));
            assert(table_view(r@).to_multiset().add(table_view(rest@).to_multiset()) =~= orig);
        }
    }
    r
}

/// The decimal digit string of `n`, most significant digit first.
pub open spec fn spec_digits(n: nat) -> Seq<u8>
    decreases n,
{
    if n < 10 {
        seq![(48 + n) as u8]
    } else {
        spec_digits(n / 10).push((48 + n % 10) as u8)
    }
}

fn push_digits(n: u64, out: &mut Vec<u8>)
    ensures
        final(out)@ == old(out)@ + spec_digits(n as nat),
    decreases n,
{
    if n >= 10 {
        push_digits(n / 10, out);
    }
    out.push(48 + (n % 10) as u8);
    proof {
        assert(out@ =~= old(out)@ + spec_digits(n as nat));
    }
}

/// A proportion scaled by 10000, written with exactly four decimal places.
pub open spec fn spec_fixed4(v: u64) -> Seq<u8> {
    spec_digits((v / 10000) as nat) + seq![
        46u8,
        (48 + (v % 10000) / 1000) as u8,
        (48 + (v % 1000) / 100) as u8,
        (48 + (v % 100) / 10) as u8,
        (48 + v % 10) as u8,
    ]
}

fn push_fixed4(v: u64, out: &mut Vec<u8>)
    ensures
        final(out)@ == old(out)@ + spec_fixed4(v),
{
    push_digits(v / 10000, out);
    out.push(46);
    out.push(48 + ((v % 10000) / 1000) as u8);
    out.push(48 + ((v % 1000) / 100) as u8);
    out.push(48 + ((v % 100) / 10) as u8);
    out.push(48 + (v % 10) as u8);
    proof {
        assert(out@ =~= old(out)@ + spec_fixed4(v));
    }
}

/// The header row of the result file: "Motif,Proportion" and a newline.
pub open spec fn csv_header() -> Seq<u8> {
    seq![
        77u8,
        111u8,
        116u8,
        105u8,
        102u8,
        44u8,
        80u8,
        114u8,
        111u8,
        112u8,
        111u8,
        114u8,
        116u8,
        105u8,
        111u8,
        110u8,
        10u8,
    ]
}

/// The data rows of the result file from entry `i` on: label, a comma, the
/// proportion with four decimal places, a newline.
pub open spec fn csv_rows(t: Seq<(Seq<u8>, u64)>, i: int) -> Seq<u8>
    decreases t.len() - i,
{
    if i < 0 || i >= t.len() {
        Seq::empty()
    } else {
        t[i].0 + seq![44u8] + spec_fixed4(t[i].1) + seq![10u8] + csv_rows(t, i + 1)
    }
}

/// The whole result file: header row, then one row per table entry in
/// table order.
pub open spec fn spec_csv(t: Seq<(Seq<u8>, u64)>) -> Seq<u8> {
    csv_header() + csv_rows(t, 0)
}

/// Serializes the result table as the two-column text file.
pub fn csv_bytes(table: &Vec<(Vec<u8>, u64)>) -> (r: Vec<u8>)
    ensures
        r@ == spec_csv(table_view(table@)),
{
    let ghost tv = table_view(table@);
    let mut out: Vec<u8> = Vec::new();
    out.push(77);
    out.push(111);
    out.push(116);
    out.push(105);
    out.push(102);
    out.push(44);
    out.push(80);
    out.push(114);
    out.push(111);
    out.push(112);
    out.push(111);
    out.push(114);
    out.push(116);
    out.push(105);
    out.push(111);
    out.push(110);
    out.push(10);
    proof {
        assert(out@ =~= csv_header());
    }
    let mut i: usize = 0;
    while i < table.len()
        invariant
            i <= table.len(),
            tv == table_view(table@),
            spec_csv(tv) == out@ + csv_rows(tv, i as int),
        decreases table.len() - i,
    {
        let ghost out0 = out@;
        proof {
            assert(tv[i as int] == (table@[i as int].0@, table@[i as int].1));
        }
        push_all(&mut out, &table[i].0);
        out.push(44);
        push_fixed4(table[i].1, &mut out);
        out.push(10);
        proof {
            assert(out@ =~= out0 + (tv[i as int].0 + seq![44u8] + spec_fixed4(tv[i as int].1)
                + seq![10u8]));
            assert(spec_csv(tv) =~= out@ + csv_rows(tv, i + 1));
        }
        i += 1;
    }
    proof {
        assert(spec_csv(tv) =~= out@);
    }
    out
}

} // verus!
