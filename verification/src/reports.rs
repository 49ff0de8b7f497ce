//! Small derived reports over the save model. The province-name report
//! counts how often each initial letter occurs among habitable provinces'
//! names and lists the letters by ascending frequency.

use crate::order::seq_sum;
use vstd::prelude::*;

verus! {

/// Request for the province-name letter report: the path of the save to
/// read, as handed over by the command-line front end.
#[derive(Clone, Debug)]
pub struct ProvinceNamesArgs {
    pub file: String,
}

/// Request for a save-container re-encoding run: the destination directory
/// and the files and directories to process, as handed over by the
/// command-line front end.
#[derive(Clone, Debug)]
pub struct TranscodeArgs {
    pub dest: String,
    pub files: Vec<String>,
}

/// One tallied letter with its frequency.
#[derive(Clone, Copy, PartialEq, Eq, Structural, Debug)]
pub struct LetterCount {
    pub letter: u8,
    pub count: usize,
}

/// Occurrences of `letter` in the input.
pub open spec fn letter_weight(letter: u8) -> spec_fn(u8) -> int {
    |b: u8|
        if b == letter {
            1int
        } else {
            0int
        }
}

pub open spec fn occurrences(letters: Seq<u8>, letter: u8) -> int {
    seq_sum(letters, letter_weight(letter))
}

pub open spec fn counts_sorted(s: Seq<LetterCount>) -> bool {
    forall|i: int| #![trigger s[i]] 0 <= i && i + 1 < s.len() ==> s[i].count <= s[i + 1].count
}

/// Tallies how often each distinct letter occurs, ordered by ascending
/// frequency. Every tallied letter occurs in the input, every input letter
/// is tallied once, and each tally is that letter's exact occurrence count.
pub fn letter_frequencies(letters: &Vec<u8>) -> (r: Vec<LetterCount>)
    ensures
        counts_sorted(r@),
        forall|i: int| 0 <= i < r@.len() ==> (#[trigger] r@[i]).count == occurrences(
            letters@,
            r@[i].letter,
        ),
        forall|i: int, j: int| 0 <= i < j < r@.len() ==> r@[i].letter != r@[j].letter,
        forall|k: int| 0 <= k < letters@.len() ==> exists|i: int|
            0 <= i < r@.len() && (#[trigger] r@[i]).letter == (#[trigger] letters@[k]),
{
    let ghost lv = letters@;
    let mut tally: Vec<LetterCount> = Vec::new();
    let mut i: usize = 0;
    while i < letters.len()
        invariant
            lv == letters@,
            i <= lv.len(),
            tally@.len() <= i,
            forall|q: int| 0 <= q < tally@.len() ==> (#[trigger] tally@[q]).count == occurrences(
                lv.take(i as int),
                tally@[q].letter,
            ) && tally@[q].count <= i,
            forall|q: int, w: int| 0 <= q < w < tally@.len() ==> tally@[q].letter
                != tally@[w].letter,
            forall|k: int| 0 <= k < i ==> exists|q: int|
                0 <= q < tally@.len() && (#[trigger] tally@[q]).letter == (#[trigger] lv[k]),
            forall|letter: u8| !(exists|q: int|
                0 <= q < tally@.len() && (#[trigger] tally@[q]).letter == letter) ==> occurrences(
                lv.take(i as int),
                letter,
            ) == 0,
        decreases lv.len() - i,
    {
        proof {
            assert(lv.take(i + 1).drop_last() == lv.take(i as int));
            assert(lv.take(i + 1).last() == lv[i as int]);
        }
        let b = letters[i];
        let mut j: usize = 0;
        let mut found: bool = false;
        while j < tally.len() && !found
            invariant
                j <= tally@.len(),
                found ==> j > 0 && 0 <= j - 1 < tally@.len() && tally@[j - 1].letter == b,
                !found ==> forall|q: int| 0 <= q < j ==> (#[trigger] tally@[q]).letter != b,
            decreases tally@.len() - j,
        {
            if tally[j].letter == b {
                found = true;
            }
            j = j + 1;
        }
        let ghost old_tally = tally@;
        if found {
            let c = tally[j - 1].count;
            tally.set(j - 1, LetterCount { letter: b, count: c + 1 });
            proof {
                assert forall|q: int|
                    0 <= q < tally@.len() implies (#[trigger] tally@[q]).count == occurrences(
                    lv.take(i + 1),
                    tally@[q].letter,
                ) && tally@[q].count <= i + 1 by {
                    if q != j - 1 {
                        assert(tally@[q] == old_tally[q]);
                        assert(old_tally[q].letter != b);
                    }
                }
                assert forall|k: int| 0 <= k < i + 1 implies exists|q: int|
                    0 <= q < tally@.len() && (#[trigger] tally@[q]).letter == (
                #[trigger] lv[k]) by {
                    if k < i {
                        let q = choose|q: int|
                            0 <= q < old_tally.len() && (#[trigger] old_tally[q]).letter == lv[k];
                        if q == j - 1 {
                            assert(tally@[q].letter == lv[k]);
                        } else {
                            assert(tally@[q] == old_tally[q]);
                        }
                    } else {
                        assert(tally@[j - 1].letter == lv[k]);
                    }
                }
                assert forall|letter: u8|
                    #![trigger occurrences(lv.take(i + 1), letter)]
                    !(exists|q: int|
                    0 <= q < tally@.len() && (#[trigger] tally@[q]).letter == letter) implies
                    occurrences(lv.take(i + 1), letter) == 0 by {
                    assert forall|q: int|
                        0 <= q < old_tally.len() implies (#[trigger] old_tally[q]).letter
                        != letter by {
                        assert(tally@[q].letter == old_tally[q].letter);
                    }
                    assert(occurrences(lv.take(i as int), letter) == 0);
                    assert(tally@[j - 1].letter == b);
                    assert(letter != b);
                }
            }
        } else {
            tally.push(LetterCount { letter: b, count: 1 });
            proof {
                assert forall|q: int|
                    0 <= q < tally@.len() implies (#[trigger] tally@[q]).count == occurrences(
                    lv.take(i + 1),
                    tally@[q].letter,
                ) && tally@[q].count <= i + 1 by {
                    if q < tally@.len() - 1 {
                        assert(tally@[q] == old_tally[q]);
                        assert(old_tally[q].letter != b);
                    } else {
                        assert(occurrences(lv.take(i as int), b) == 0);
                    }
                }
                assert forall|k: int| 0 <= k < i + 1 implies exists|q: int|
                    0 <= q < tally@.len() && (#[trigger] tally@[q]).letter == (
                #[trigger] lv[k]) by {
                    if k < i {
                        let q = choose|q: int|
                            0 <= q < old_tally.len() && (#[trigger] old_tally[q]).letter == lv[k];
                        assert(tally@[q] == old_tally[q]);
                    } else {
                        assert(tally@[tally@.len() - 1].letter == lv[k]);
                    }
                }
                assert forall|letter: u8|
                    #![trigger occurrences(lv.take(i + 1), letter)]
                    !(exists|q: int|
                    0 <= q < tally@.len() && (#[trigger] tally@[q]).letter == letter) implies
                    occurrences(lv.take(i + 1), letter) == 0 by {
                    assert forall|q: int|
                        0 <= q < old_tally.len() implies (#[trigger] old_tally[q]).letter
                        != letter by {
                        assert(tally@[q].letter == old_tally[q].letter);
                    }
                    assert(occurrences(lv.take(i as int), letter) == 0);
                    assert(tally@[tally@.len() - 1].letter == b);
                    assert(letter != b);
                }
            }
        }
        i = i + 1;
    }
    proof {
        assert(lv.take(lv.len() as int) == lv);
    }
    // ascending insertion sort by frequency
    let mut out: Vec<LetterCount> = Vec::new();
    let mut k: usize = 0;
    proof {
        broadcast use vstd::seq_lib::group_to_multiset_ensures;

        assert(tally@.take(0int) == Seq::<LetterCount>::empty());
        assert(out@.to_multiset() =~= tally@.take(0int).to_multiset());
    }
    while k < tally.len()
        invariant
            k <= tally@.len(),
            counts_sorted(out@),
            out@.to_multiset() == tally@.take(k as int).to_multiset(),
        decreases tally@.len() - k,
    {
        broadcast use vstd::seq_lib::group_to_multiset_ensures;

        let x = tally[k];
        let mut j: usize = 0;
        while j < out.len() && out[j].count <= x.count
            invariant
                j <= out@.len(),
                forall|q: int| 0 <= q < j ==> (#[trigger] out@[q]).count <= x.count,
            decreases out@.len() - j,
        {
            j = j + 1;
        }
        let ghost old_out = out@;
        out.insert(j, x);
        proof {
            crate::order::lemma_insert_to_multiset(old_out, j as int, x);
            old_out.insert_ensures(j as int, x);
            assert(tally@.take(k + 1) == tally@.take(k as int).push(x));
            vstd::seq_lib::to_multiset_build::<LetterCount>(tally@.take(k as int), x);
            assert(out@.to_multiset() =~= tally@.take(k + 1).to_multiset());
            assert forall|q: int| #![trigger out@[q]] 0 <= q && q + 1 < out@.len() implies out@[q].count
                <= out@[q + 1].count by {
                if q + 1 < j {
                    assert(out@[q] == old_out[q]);
                    assert(out@[q + 1] == old_out[q + 1]);
                } else if q + 1 == j {
                    assert(out@[q] == old_out[q]);
                    assert(out@[q + 1] == x);
                } else if q == j {
                    assert(out@[q] == x);
                    assert(out@[q + 1] == old_out[q]);
                } else {
                    assert(out@[q] == old_out[q - 1]);
                    assert(out@[q + 1] == old_out[q]);
                }
            }
        }
        k = k + 1;
    }
    proof {
        assert(tally@.take(tally@.len() as int) == tally@);
        crate::order::lemma_multiset_eq_contains(out@, tally@);
        assert forall|i2: int|
            0 <= i2 < out@.len() implies (#[trigger] out@[i2]).count == occurrences(
            lv,
            out@[i2].letter,
        ) by {
            assert(tally@.contains(out@[i2]));
            let w = choose|w: int| 0 <= w < tally@.len() && tally@[w] == out@[i2];
        }
        assert forall|i2: int, j2: int|
            0 <= i2 < j2 < out@.len() implies out@[i2].letter != out@[j2].letter by {
            if out@[i2].letter == out@[j2].letter {
                broadcast use vstd::seq_lib::group_to_multiset_ensures;

                assert(tally@.contains(out@[i2]));
                assert(tally@.contains(out@[j2]));
                let w1 = choose|w: int| 0 <= w < tally@.len() && tally@[w] == out@[i2];
                let w2 = choose|w: int| 0 <= w < tally@.len() && tally@[w] == out@[j2];
                assert(out@[i2].count == occurrences(lv, out@[i2].letter));
                assert(out@[j2].count == occurrences(lv, out@[j2].letter));
                assert(out@[i2] == out@[j2]);
                lemma_distinct_multiset(tally@, out@, i2, j2);
                let (q2, w2): (int, int) = choose|q2: int, w2: int|
                    0 <= q2 < w2 < tally@.len() && tally@[q2] == tally@[w2];
                assert(tally@[q2].letter == tally@[w2].letter);
            }
        }
        assert forall|k2: int| 0 <= k2 < lv.len() implies exists|i2: int|
            0 <= i2 < out@.len() && (#[trigger] out@[i2]).letter == (#[trigger] lv[k2]) by {
            let q = choose|q: int|
                0 <= q < tally@.len() && (#[trigger] tally@[q]).letter == lv[k2];
            assert(out@.contains(tally@[q]));
            let w = choose|w: int| 0 <= w < out@.len() && out@[w] == tally@[q];
        }
    }
    out
}

/// An element repeated in `out` is repeated in any sequence sharing its
/// multiset.
proof fn lemma_distinct_multiset(tally: Seq<LetterCount>, out: Seq<LetterCount>, i: int, j: int)
    requires
        tally.to_multiset() == out.to_multiset(),
        0 <= i < j < out.len(),
        out[i] == out[j],
    ensures
        exists|q: int, w: int| 0 <= q < w < tally.len() && tally[q] == tally[w],
{
    broadcast use vstd::seq_lib::group_to_multiset_ensures;

    let x = out[i];
    assert(out.remove(j).to_multiset() =~= out.to_multiset().remove(x));
    assert(out.remove(j)[i] == x);
    assert(out.remove(j).contains(x));
    assert(out.remove(j).to_multiset().count(x) > 0);
    assert(out.to_multiset().count(x) >= 2);
    assert(tally.to_multiset().count(x) >= 2);
    let w1 = choose|w: int| 0 <= w < tally.len() && tally[w] == x;
    assert(tally.remove(w1).to_multiset() =~= tally.to_multiset().remove(x));
    assert(tally.remove(w1).to_multiset().count(x) > 0);
    assert(tally.remove(w1).contains(x));
    let w2 = choose|w: int| 0 <= w < tally.remove(w1).len() && tally.remove(w1)[w] == x;
    if w2 < w1 {
        assert(tally[w2] == x && tally[w1] == x);
    } else {
        assert(tally[w1] == x && tally[w2 + 1] == x);
    }
}

} // verus!
