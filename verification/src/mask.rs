use vstd::prelude::*;

use crate::reader::table_view;
use crate::Threshold;

verus! {

/// ASCII whitespace bytes other than newline: tab, vertical tab, form feed,
/// carriage return, space.
pub open spec fn is_ws(b: u8) -> bool {
    b == 32 || b == 9 || b == 11 || b == 12 || b == 13
}

/// A segment without its trailing carriage return, if it has one: a line
/// ending is a newline or a carriage return followed by a newline.
pub open spec fn strip_cr(l: Seq<u8>) -> Seq<u8> {
    if l.len() >= 1 && l.last() == 13 {
        l.drop_last()
    } else {
        l
    }
}

/// The segments of `s` split at newline bytes, the last segment still open
/// (present even when empty). A carriage return just before a newline
/// belongs to the line ending, not to the line.
pub open spec fn lines_state(s: Seq<u8>) -> Seq<Seq<u8>>
    decreases s.len(),
{
    if s.len() == 0 {
        seq![Seq::empty()]
    } else {
        let prev = lines_state(s.drop_last());
        if s.last() == 10 {
            prev.update(prev.len() - 1, strip_cr(prev.last())).push(Seq::empty())
        } else {
            prev.update(prev.len() - 1, prev.last().push(s.last()))
        }
    }
}

/// The lines of `s`: newline-separated segments, without a final empty
/// segment after a trailing newline. A final line without a line ending
/// keeps its bytes as they stand.
pub open spec fn spec_lines(s: Seq<u8>) -> Seq<Seq<u8>> {
    let st = lines_state(s);
    if st.last().len() == 0 {
        st.drop_last()
    } else {
        st
    }
}

/// The whitespace-separated tokens of `l`, left to right.
pub open spec fn spec_tokens(l: Seq<u8>) -> Seq<Seq<u8>>
    decreases l.len(),
{
    if l.len() == 0 {
        seq![]
    } else {
        let prev = spec_tokens(l.drop_last());
        let b = l.last();
        if is_ws(b) {
            prev
        } else if l.len() >= 2 && !is_ws(l[l.len() - 2]) {
            prev.update(prev.len() - 1, prev.last().push(b))
        } else {
            prev.push(seq![b])
        }
    }
}

/// Splits a byte string into its lines.
pub fn split_lines(data: &Vec<u8>) -> (r: Vec<Vec<u8>>)
    ensures
        r.deep_view() == spec_lines(data@),
{
    let mut out: Vec<Vec<u8>> = Vec::new();
    let mut cur: Vec<u8> = Vec::new();
    let mut i: usize = 0;
    proof {
        assert(out.deep_view() =~~= Seq::<Seq<u8>>::empty());
        assert(data@.subrange(0, 0) =~= Seq::<u8>::empty());
    }
    while i < data.len()
        invariant
            i <= data.len(),
            lines_state(data@.subrange(0, i as int)) == out.deep_view().push(cur@),
        decreases data.len() - i,
    {
        let ghost out0 = out.deep_view();
        let ghost cv = cur@;
        let b = data[i];
        proof {
            assert(data@.subrange(0, i + 1).drop_last() =~= data@.subrange(0, i as int));
            assert(data@.subrange(0, i + 1).last() == data@[i as int]);
        }
        if b == 10 {
            if cur.len() > 0 && cur[cur.len() - 1] == 13 {
                cur.pop();
            }
            proof {
                assert(cur@ =~= strip_cr(cv));
            }
            out.push(cur);
            cur = Vec::new();
            proof {
                assert(out.deep_view() =~~= out0.push(strip_cr(cv)));
            }
        } else {
            cur.push(b);
        }
        proof {
            assert(lines_state(data@.subrange(0, i + 1)) =~~= out.deep_view().push(cur@));
        }
        i += 1;
    }
    proof {
        assert(data@.subrange(0, data.len() as int) =~= data@);
    }
    if cur.len() > 0 {
        let ghost out0 = out.deep_view();
        let ghost cv = cur@;
        out.push(cur);
        proof {
            assert(out.deep_view() =~~= out0.push(cv));
            assert(out.deep_view() =~~= spec_lines(data@));
        }
        out
    } else {
        proof {
            assert(out.deep_view() =~~= spec_lines(data@));
        }
        out
    }
}

fn is_ws_byte(b: u8) -> (r: bool)
    ensures
        r == is_ws(b),
{
    b == 32 || b == 9 || b == 11 || b == 12 || b == 13
}

/// Splits a line into its whitespace-separated tokens.
pub fn split_tokens(l: &Vec<u8>) -> (r: Vec<Vec<u8>>)
    ensures
        r.deep_view() == spec_tokens(l@),
{
    let mut out: Vec<Vec<u8>> = Vec::new();
    let mut cur: Vec<u8> = Vec::new();
    let mut in_tok: bool = false;
    let mut i: usize = 0;
    proof {
        assert(out.deep_view() =~~= Seq::<Seq<u8>>::empty());
        assert(l@.subrange(0, 0) =~= Seq::<u8>::empty());
    }
    while i < l.len()
        invariant
            i <= l.len(),
            in_tok == (i >= 1 && !is_ws(l@[i as int - 1])),
            in_tok ==> cur@.len() >= 1 && spec_tokens(l@.subrange(0, i as int))
                == out.deep_view().push(cur@),
            !in_tok ==> cur@.len() == 0 && spec_tokens(l@.subrange(0, i as int))
                == out.deep_view(),
        decreases l.len() - i,
    {
        let ghost out0 = out.deep_view();
        let ghost cv = cur@;
        let b = l[i];
        proof {
            assert(l@.subrange(0, i + 1).drop_last() =~= l@.subrange(0, i as int));
            assert(l@.subrange(0, i + 1).last() == l@[i as int]);
            if i >= 1 {
                assert(l@.subrange(0, i + 1)[i as int - 1] == l@[i as int - 1]);
            }
        }
        if is_ws_byte(b) {
            if in_tok {
                out.push(cur);
                cur = Vec::new();
                in_tok = false;
                proof {
                    assert(out.deep_view() =~~= out0.push(cv));
                }
            }
        } else {
            cur.push(b);
            if !in_tok {
                in_tok = true;
            }
        }
        proof {
            assert(spec_tokens(l@.subrange(0, i + 1)) =~~= if in_tok {
                out.deep_view().push(cur@)
            } else {
                out.deep_view()
            });
        }
        i += 1;
    }
    proof {
        assert(l@.subrange(0, l.len() as int) =~= l@);
    }
    if in_tok {
        let ghost out0 = out.deep_view();
        let ghost cv = cur@;
        out.push(cur);
        proof {
            assert(out.deep_view() =~~= out0.push(cv));
        }
        out
    } else {
        out
    }
}

pub open spec fn is_digit(b: u8) -> bool {
    48 <= b <= 57
}

/// The digit part of a token: an optional leading plus sign is dropped.
pub open spec fn tok_digits(t: Seq<u8>) -> Seq<u8> {
    if t.len() >= 1 && t[0] == 43 {
        t.drop_first()
    } else {
        t
    }
}

pub open spec fn all_digits(t: Seq<u8>) -> bool {
    t.len() >= 1 && forall|i: int| 0 <= i < t.len() ==> is_digit(t[i])
}

/// The value of a decimal digit string.
pub open spec fn digits_val(t: Seq<u8>) -> nat
    decreases t.len(),
{
    if t.len() == 0 {
        0
    } else {
        digits_val(t.drop_last()) * 10 + (t.last() - 48) as nat
    }
}

/// The unsigned decimal value of a token, when it is one and fits.
pub open spec fn parse_u64(t: Seq<u8>) -> Option<u64> {
    let d = tok_digits(t);
    if all_digits(d) && digits_val(d) <= u64::MAX {
        Some(digits_val(d) as u64)
    } else {
        None
    }
}

proof fn lemma_digits_mono(d: Seq<u8>, i: int)
    requires
        0 <= i <= d.len(),
        forall|j: int| 0 <= j < d.len() ==> is_digit(d[j]),
    ensures
        digits_val(d.subrange(0, i)) <= digits_val(d),
    decreases d.len() - i,
{
    if i < d.len() {
        lemma_digits_mono(d, i + 1);
        assert(d.subrange(0, i + 1).drop_last() =~= d.subrange(0, i));
    } else {
        assert(d.subrange(0, i) =~= d);
    }
}

/// Parses a token as an unsigned decimal integer.
pub fn parse_u64_token(t: &Vec<u8>) -> (r: Option<u64>)
    ensures
        r == parse_u64(t@),
{
    let ghost d = tok_digits(t@);
    let mut i: usize = 0;
    if t.len() >= 1 && t[0] == 43 {
        i = 1;
    }
    let start = i;
    proof {
        assert(d =~= t@.subrange(start as int, t@.len() as int));
    }
    if i >= t.len() {
        assert(!all_digits(d));
        return None;
    }
    let mut val: u64 = 0;
    proof {
        assert(d.subrange(0, 0) =~= Seq::<u8>::empty());
    }
    while i < t.len()
        invariant
            start <= i <= t.len(),
            start <= 1,
            t.len() > start,
            d == tok_digits(t@),
            d == t@.subrange(start as int, t@.len() as int),
            val == digits_val(d.subrange(0, i - start)),
            forall|j: int| 0 <= j < i - start ==> is_digit(d[j]),
        decreases t.len() - i,
    {
        let b = t[i];
        proof {
            assert(d[i - start] == t@[i as int]);
        }
        if !(48 <= b && b <= 57) {
            assert(!all_digits(d));
            return None;
        }
        let dig = (b - 48) as u64;
        proof {
            assert(d.subrange(0, i - start + 1).drop_last() =~= d.subrange(0, i - start));
            assert(d.subrange(0, i - start + 1).last() == d[i - start]);
        }
        if val > u64::MAX / 10 || val * 10 > u64::MAX - dig {
            proof {
                assert(digits_val(d.subrange(0, i - start + 1)) > u64::MAX);
                if all_digits(d) {
                    lemma_digits_mono(d, i - start + 1);
                }
            }
            return None;
        }
        val = val * 10 + dig;
        i += 1;
    }
    proof {
        assert(d.subrange(0, t@.len() - start) =~= d);
        assert(all_digits(d));
    }
    Some(val)
}

/// Fatal faults of the masking-report parse. A wrong token count is not a
/// fault (such lines are ignored); a non-integer offset, an inverted
/// interval, or a masked-base total beyond the machine word is.
#[derive(Clone, Copy, Debug, PartialEq, Eq, Structural)]
pub enum MaskError {
    InvalidStart,
    InvalidEnd,
    InvalidInterval,
    Overflow,
}

/// Index of the first entry of `t` with key `key`, searching from `i`;
/// -1 when there is none.
pub open spec fn find_key_from(t: Seq<(Seq<u8>, u64)>, key: Seq<u8>, i: int) -> int
    decreases t.len() - i,
{
    if i < 0 || i >= t.len() {
        -1
    } else if t[i].0 == key {
        i
    } else {
        find_key_from(t, key, i + 1)
    }
}

/// One interval accumulated into the masked-base table: added to the entry
/// with the same identifier, or appended as a new entry. None when the
/// entry's total would no longer fit in a machine word.
pub open spec fn add_interval(t: Seq<(Seq<u8>, u64)>, key: Seq<u8>, len: u64) -> Option<
    Seq<(Seq<u8>, u64)>,
> {
    let i = find_key_from(t, key, 0);
    if i < 0 {
        Some(t.push((key, len)))
    } else if t[i].1 + len > u64::MAX {
        None
    } else {
        Some(t.update(i, (key, (t[i].1 + len) as u64)))
    }
}

/// What one masking-report line contributes: `Ok(None)` when the line does
/// not have exactly three tokens (it is ignored), an error when an offset is
/// not an integer or the interval is inverted or overlong, and otherwise the
/// identifier with the inclusive interval length `end - start + 1`.
pub open spec fn line_interval(l: Seq<u8>) -> Result<Option<(Seq<u8>, u64)>, MaskError> {
    let toks = spec_tokens(l);
    if toks.len() != 3 {
        Ok(None)
    } else {
        match parse_u64(toks[1]) {
            None => Err(MaskError::InvalidStart),
            Some(start) => match parse_u64(toks[2]) {
                None => Err(MaskError::InvalidEnd),
                Some(end) => if end < start {
                    Err(MaskError::InvalidInterval)
                } else if end - start + 1 > u64::MAX {
                    Err(MaskError::Overflow)
                } else {
                    Ok(Some((toks[0], (end - start + 1) as u64)))
                },
            },
        }
    }
}

/// The masked-base table accumulated over the report lines from `i` on,
/// starting from `acc`: per identifier, the sum of its interval lengths.
pub open spec fn dust_table_from(
    lines: Seq<Seq<u8>>,
    i: int,
    acc: Seq<(Seq<u8>, u64)>,
) -> Result<Seq<(Seq<u8>, u64)>, MaskError>
    decreases lines.len() - i,
{
    if i < 0 || i >= lines.len() {
        Ok(acc)
    } else {
        match line_interval(lines[i]) {
            Err(e) => Err(e),
            Ok(None) => dust_table_from(lines, i + 1, acc),
            Ok(Some((key, len))) => match add_interval(acc, key, len) {
                None => Err(MaskError::Overflow),
                Some(acc2) => dust_table_from(lines, i + 1, acc2),
            },
        }
    }
}

/// How many entries of the masked-base table from `i` on classify their
/// read as low-complexity: the read's length is known and the masked
/// proportion strictly exceeds the threshold. Entries with no known length
/// are ignored.
pub open spec fn low_count_from(
    t: Seq<(Seq<u8>, u64)>,
    lengths: Seq<(Seq<u8>, u64)>,
    thr: Threshold,
    i: int,
) -> nat
    decreases t.len() - i,
{
    if i < 0 || i >= t.len() {
        0
    } else {
        let rest = low_count_from(t, lengths, thr, i + 1);
        let k = find_key_from(lengths, t[i].0, 0);
        if k >= 0 && thr.exceeded_by(t[i].1 as nat, lengths[k].1 as nat) {
            rest + 1
        } else {
            rest
        }
    }
}

proof fn lemma_find_key_none(t: Seq<(Seq<u8>, u64)>, key: Seq<u8>, i: int)
    requires
        0 <= i,
        find_key_from(t, key, i) == -1,
    ensures
        forall|j: int| i <= j < t.len() ==> t[j].0 != key,
    decreases t.len() - i,
{
    if 0 <= i < t.len() {
        lemma_find_key_none(t, key, i + 1);
    }
}

proof fn lemma_find_key_found(t: Seq<(Seq<u8>, u64)>, key: Seq<u8>, i: int)
    requires
        find_key_from(t, key, i) >= 0,
    ensures
        i <= find_key_from(t, key, i) < t.len(),
        t[find_key_from(t, key, i)].0 == key,
    decreases t.len() - i,
{
    if 0 <= i < t.len() {
        if t[i].0 != key {
            lemma_find_key_found(t, key, i + 1);
        }
    }
}

/// No two entries of the table have the same key.
pub open spec fn distinct_keys(t: Seq<(Seq<u8>, u64)>) -> bool {
    forall|a: int, b: int| 0 <= a < b < t.len() ==> t[a].0 != t[b].0
}

/// The set of length-table indices that the entries of `t` from `i` on are
/// counted against.
spec fn found_keys(
    t: Seq<(Seq<u8>, u64)>,
    lengths: Seq<(Seq<u8>, u64)>,
    thr: Threshold,
    i: int,
) -> Set<int>
    decreases t.len() - i,
{
    if i < 0 || i >= t.len() {
        Set::empty()
    } else {
        let rest = found_keys(t, lengths, thr, i + 1);
        let k = find_key_from(lengths, t[i].0, 0);
        if k >= 0 && thr.exceeded_by(t[i].1 as nat, lengths[k].1 as nat) {
            rest.insert(k)
        } else {
            rest
        }
    }
}

proof fn lemma_low_count_card(
    t: Seq<(Seq<u8>, u64)>,
    lengths: Seq<(Seq<u8>, u64)>,
    thr: Threshold,
    i: int,
)
    requires
        distinct_keys(t),
    ensures
        found_keys(t, lengths, thr, i).finite(),
        found_keys(t, lengths, thr, i).len() == low_count_from(t, lengths, thr, i),
        forall|k: int|
            found_keys(t, lengths, thr, i).contains(k) ==> 0 <= k < lengths.len() && exists|j: int|
                i <= j < t.len() && #[trigger] find_key_from(lengths, t[j].0, 0) == k,
    decreases t.len() - i,
{
    if !(i < 0 || i >= t.len()) {
        lemma_low_count_card(t, lengths, thr, i + 1);
        let rest = found_keys(t, lengths, thr, i + 1);
        let k = find_key_from(lengths, t[i].0, 0);
        if k >= 0 && thr.exceeded_by(t[i].1 as nat, lengths[k].1 as nat) {
            lemma_find_key_found(lengths, t[i].0, 0);
            if rest.contains(k) {
                let j = choose|j: int|
                    i + 1 <= j < t.len() && #[trigger] find_key_from(lengths, t[j].0, 0) == k;
                lemma_find_key_found(lengths, t[j].0, 0);
                assert(t[i].0 == lengths[k].0 && t[j].0 == lengths[k].0);
                assert(false);
            }
            assert(rest.insert(k).len() == rest.len() + 1);
            assert forall|k2: int| found_keys(t, lengths, thr, i).contains(k2) implies 0 <= k2
                < lengths.len() && exists|j: int|
                i <= j < t.len() && #[trigger] find_key_from(lengths, t[j].0, 0) == k2 by {
                if k2 == k {
                    assert(find_key_from(lengths, t[i].0, 0) == k2);
                }
            }
        }
    }
}

/// The low-complexity count never exceeds the length table's size: counted
/// entries have pairwise distinct identifiers, and each is matched to a
/// distinct length-table index.
pub proof fn lemma_low_count_bound(
    t: Seq<(Seq<u8>, u64)>,
    lengths: Seq<(Seq<u8>, u64)>,
    thr: Threshold,
)
    requires
        distinct_keys(t),
    ensures
        low_count_from(t, lengths, thr, 0) <= lengths.len(),
{
    lemma_low_count_card(t, lengths, thr, 0);
    let s = found_keys(t, lengths, thr, 0);
    let rng = vstd::set_lib::set_int_range(0, lengths.len() as int);
    assert(s.subset_of(rng));
    vstd::set_lib::lemma_int_range(0, lengths.len() as int);
    vstd::set_lib::lemma_len_subset(s, rng);
}

/// The number of low-complexity reads according to a masking report, or the
/// fatal fault of its parse.
pub open spec fn spec_low_complexity(
    data: Seq<u8>,
    lengths: Seq<(Seq<u8>, u64)>,
    thr: Threshold,
) -> Result<nat, MaskError> {
    match dust_table_from(spec_lines(data), 0, Seq::empty()) {
        Err(e) => Err(e),
        Ok(t) => Ok(low_count_from(t, lengths, thr, 0)),
    }
}

/// Byte-wise equality of two byte strings.
fn bytes_eq(a: &Vec<u8>, b: &Vec<u8>) -> (r: bool)
    ensures
        r == (a@ == b@),
{
    if a.len() != b.len() {
        return false;
    }
    let mut i: usize = 0;
    while i < a.len()
        invariant
            i <= a.len(),
            a.len() == b.len(),
            forall|j: int| 0 <= j < i ==> a@[j] == b@[j],
        decreases a.len() - i,
    {
        if a[i] != b[i] {
            return false;
        }
        i += 1;
    }
    proof {
        assert(a@ =~= b@);
    }
    true
}

/// First entry of the table with the given key.
fn find_key_exec(t: &Vec<(Vec<u8>, u64)>, key: &Vec<u8>) -> (r: Option<usize>)
    ensures
        match r {
            Some(j) => find_key_from(table_view(t@), key@, 0) == j as int && j < t.len()
                && table_view(t@)[j as int].0 == key@,
            None => find_key_from(table_view(t@), key@, 0) == -1,
        },
{
    let ghost tv = table_view(t@);
    let mut i: usize = 0;
    while i < t.len()
        invariant
            i <= t.len(),
            tv == table_view(t@),
            find_key_from(tv, key@, 0) == find_key_from(tv, key@, i as int),
        decreases t.len() - i,
    {
        proof {
            assert(tv[i as int] == (t@[i as int].0@, t@[i as int].1));
        }
        if bytes_eq(&t[i].0, key) {
            proof {
                assert(tv[i as int].0 == key@);
            }
            return Some(i);
        }
        i += 1;
    }
    None
}

/// Merges the external masking report with the length table: sums each
/// read's masked-base interval lengths, and counts the reads whose masked
/// proportion strictly exceeds the threshold. Lines without exactly three
/// tokens are ignored; a non-integer offset or an inverted interval is a
/// fatal parse error; reads absent from the length table are ignored.
pub fn parse_dust_output(
    dust_data: &Vec<u8>,
    read_lengths: &Vec<(Vec<u8>, u64)>,
    threshold: &Threshold,
) -> (r: Result<u64, MaskError>)
    requires
        threshold.wf(),
    ensures
        match (r, spec_low_complexity(dust_data@, table_view(read_lengths@), *threshold)) {
            (Ok(c), Ok(sc)) => c as nat == sc && c <= read_lengths.len(),
            (Err(e), Err(se)) => e == se,
            _ => false,
        },
{
    let lines = split_lines(dust_data);
    let ghost ldv = lines.deep_view();
    let ghost goal = dust_table_from(ldv, 0, Seq::empty());
    let mut table: Vec<(Vec<u8>, u64)> = Vec::new();
    proof {
        assert(table_view(table@) =~= Seq::<(Seq<u8>, u64)>::empty());
    }
    let mut i: usize = 0;
    while i < lines.len()
        invariant
            i <= lines.len(),
            ldv == lines.deep_view(),
            ldv == spec_lines(dust_data@),
            goal == dust_table_from(ldv, 0, Seq::empty()),
            goal == dust_table_from(ldv, i as int, table_view(table@)),
            distinct_keys(table_view(table@)),
        decreases lines.len() - i,
    {
        let ghost acc = table_view(table@);
        let line = &lines[i];
        proof {
            assert(ldv[i as int] =~= line@);
        }
        let mut toks = split_tokens(line);
        if toks.len() == 3 {
            proof {
                assert(toks.deep_view()[1] =~= toks@[1]@);
                assert(toks.deep_view()[2] =~= toks@[2]@);
                assert(toks.deep_view()[0] =~= toks@[0]@);
            }
            let start = match parse_u64_token(&toks[1]) {
                Some(v) => v,
                None => {
                    return Err(MaskError::InvalidStart);
                },
            };
            let end = match parse_u64_token(&toks[2]) {
                Some(v) => v,
                None => {
                    return Err(MaskError::InvalidEnd);
                },
            };
            if end < start {
                return Err(MaskError::InvalidInterval);
            }
            if end - start == u64::MAX {
                return Err(MaskError::Overflow);
            }
            let ilen = end - start + 1;
            let key = toks.remove(0);
            match find_key_exec(&table, &key) {
                Some(j) => {
                    proof {
                        assert(acc[j as int] == (table@[j as int].0@, table@[j as int].1));
                    }
                    let prev = table[j].1;
                    if prev > u64::MAX - ilen {
                        return Err(MaskError::Overflow);
                    }
                    table.set(j, (key, prev + ilen));
                    proof {
                        assert(table_view(table@) =~~= acc.update(
                            find_key_from(acc, key@, 0),
                            (key@, (prev + ilen) as u64),
                        ));
                        assert(table_view(table@) =~~= add_interval(acc, key@, ilen).unwrap());
                        assert forall|a: int, b: int|
                            0 <= a < b < table_view(table@).len() implies table_view(
                            table@,
                        )[a].0 != table_view(table@)[b].0 by {
                            assert(table_view(table@)[a].0 == acc[a].0);
                            assert(table_view(table@)[b].0 == acc[b].0);
                        }
                    }
                },
                None => {
                    proof {
                        lemma_find_key_none(acc, key@, 0);
                    }
                    table.push((key, ilen));
                    proof {
                        assert(table_view(table@) =~~= acc.push((key@, ilen)));
                        assert forall|a: int, b: int|
                            0 <= a < b < table_view(table@).len() implies table_view(
                            table@,
                        )[a].0 != table_view(table@)[b].0 by {
                            if b < acc.len() {
                                assert(acc[a].0 != acc[b].0);
                            } else {
                                assert(acc[a].0 != key@);
                            }
                        }
                    }
                },
            }
        }
        i += 1;
    }
    let ghost tfinal = table_view(table@);
    proof {
        assert(dust_table_from(ldv, lines.len() as int, tfinal) == Ok::<_, MaskError>(tfinal));
        assert(spec_lines(dust_data@) == ldv);
        lemma_low_count_bound(tfinal, table_view(read_lengths@), *threshold);
    }
    let mut count: u64 = 0;
    let mut j: usize = 0;
    while j < table.len()
        invariant
            j <= table.len(),
            count <= j,
            tfinal == table_view(table@),
            threshold.wf(),
            low_count_from(tfinal, table_view(read_lengths@), *threshold, 0) == count
                + low_count_from(tfinal, table_view(read_lengths@), *threshold, j as int),
        decreases table.len() - j,
    {
        proof {
            assert(tfinal[j as int] == (table@[j as int].0@, table@[j as int].1));
        }
        match find_key_exec(read_lengths, &table[j].0) {
            Some(k) => {
                let masked = table[j].1;
                let rl = read_lengths[k].1;
                proof {
                    assert(table_view(read_lengths@)[k as int] == (
                        read_lengths@[k as int].0@,
                        read_lengths@[k as int].1,
                    ));
                }
                if crate::freq::exceeds(masked, rl, threshold) {
                    count = count + 1;
                }
            },
            None => {},
        }
        j += 1;
    }
    Ok(count)
}

} // verus!
