use vstd::prelude::*;

verus! {

/// The byte that ends a record.
pub const RECORD_END: u8 = 10;

/// The length of the first record of `s`: up to and including the first
/// terminator, or all of `s` where it holds none.
pub open spec fn first_record_len(s: Seq<u8>) -> nat
    decreases s.len(),
{
    if s.len() == 0 {
        0
    } else if s[0] == RECORD_END {
        1
    } else {
        1 + first_record_len(s.skip(1))
    }
}

/// The lengths of the records of a segment, in order.  Each record runs up to
/// and including the next terminator; the last one may lack it, where the
/// segment ends without one.
pub open spec fn record_lengths(s: Seq<u8>) -> Seq<nat>
    decreases s.len(),
{
    if s.len() == 0 {
        Seq::empty()
    } else {
        let n = first_record_len(s);
        if 0 < n <= s.len() {
            seq![n].add(record_lengths(s.skip(n as int)))
        } else {
            Seq::empty()
        }
    }
}

proof fn lemma_first_record_len(s: Seq<u8>)
    ensures
        s.len() > 0 ==> 0 < first_record_len(s) <= s.len(),
    decreases s.len(),
{
    if s.len() > 0 && s[0] != RECORD_END {
        assert(s.skip(1).len() == 0 ==> first_record_len(s.skip(1)) == 0);
        lemma_first_record_len(s.skip(1));
    }
}

/// Cuts the contents of a segment into its records and returns their lengths.
pub fn split_records(bytes: &[u8]) -> (r: Vec<u64>)
    ensures
        r@.len() == record_lengths(bytes@).len(),
        forall|i: int| 0 <= i < r@.len() ==> r@[i] == #[trigger] record_lengths(bytes@)[i],
{
    let mut lens: Vec<u64> = Vec::new();
    let mut pos: usize = 0;
    let ghost all = bytes@;
    assert(all.skip(0) =~= all);
    assert(lens@.map_values(|x: u64| x as nat).add(record_lengths(all)) =~= record_lengths(all));
    while pos < bytes.len()
        invariant
            0 <= pos <= all.len(),
            all == bytes@,
            record_lengths(all) =~= lens@.map_values(|x: u64| x as nat).add(record_lengths(all.skip(pos as int))),
        decreases all.len() - pos,
    {
        let mut j: usize = pos;
        while j < bytes.len() && bytes[j] != RECORD_END
            invariant
                pos <= j <= all.len(),
                all == bytes@,
                first_record_len(all.skip(pos as int)) == (j - pos) + first_record_len(all.skip(j as int)),
            decreases all.len() - j,
        {
            assert(all.skip(j as int).skip(1) =~= all.skip(j + 1));
            j = j + 1;
        }
        let end = if j < bytes.len() {
            j + 1
        } else {
            j
        };
        proof {
            if j < all.len() {
                assert(all.skip(j as int)[0] == RECORD_END);
            } else {
                assert(all.skip(j as int).len() == 0);
            }
            let rest = all.skip(pos as int);
            lemma_first_record_len(rest);
            assert(first_record_len(rest) == end - pos);
            assert(rest.skip((end - pos) as int) =~= all.skip(end as int));
            assert(record_lengths(rest) =~= seq![(end - pos) as nat].add(record_lengths(all.skip(end as int))));
        }
        let ghost before = lens@;
        lens.push((end - pos) as u64);
        proof {
            assert(lens@.map_values(|x: u64| x as nat) =~= before.map_values(|x: u64| x as nat).push(
                (end - pos) as nat,
            ));
        }
        pos = end;
    }
    proof {
        assert(all.skip(pos as int).len() == 0);
        assert(record_lengths(all.skip(pos as int)) =~= Seq::<nat>::empty());
    }
    lens
}

} // verus!
