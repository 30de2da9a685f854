//! Frequency statistics over an input.
//!
//! The frequency table is built by one pure pass over the input and is the
//! only thing the tree builder consumes.  Entries stand in order of first
//! occurrence, which fixes the seeding order of the merge candidate list
//! and so makes compression reproducible.

use vstd::prelude::*;

verus! {

/// Number of occurrences of `c` in `s`.
pub open spec fn count_of(s: Seq<char>, c: char) -> nat
    decreases s.len(),
{
    if s.len() == 0 {
        0
    } else {
        count_of(s.drop_last(), c) + if s.last() == c {
            1nat
        } else {
            0nat
        }
    }
}

/// The distinct symbols of `s`, in order of first occurrence.
pub open spec fn distinct_symbols(s: Seq<char>) -> Seq<char>
    decreases s.len(),
{
    if s.len() == 0 {
        Seq::empty()
    } else {
        let p = distinct_symbols(s.drop_last());
        if p.contains(s.last()) {
            p
        } else {
            p.push(s.last())
        }
    }
}

/// `distinct_symbols` holds exactly the symbols of `s`, each once.
pub proof fn lemma_distinct_symbols(s: Seq<char>)
    ensures
        distinct_symbols(s).no_duplicates(),
        forall|c: char| distinct_symbols(s).contains(c) <==> s.contains(c),
        distinct_symbols(s).len() <= s.len(),
    decreases s.len(),
{
    if s.len() > 0 {
        lemma_distinct_symbols(s.drop_last());
        let p = distinct_symbols(s.drop_last());
        let ds = distinct_symbols(s);
        assert forall|c: char| ds.contains(c) implies s.contains(c) by {
            let j = choose|j: int| 0 <= j < ds.len() && ds[j] == c;
            if j < p.len() {
                assert(p[j] == c);
                assert(p.contains(c));
                assert(s.drop_last().contains(c));
                let i = choose|i: int| 0 <= i < s.drop_last().len() && s.drop_last()[i] == c;
                assert(s[i] == c);
            } else {
                assert(c == s.last());
                assert(s[s.len() - 1] == c);
            }
        }
        assert forall|c: char| s.contains(c) implies ds.contains(c) by {
            let i = choose|i: int| 0 <= i < s.len() && s[i] == c;
            if i < s.len() - 1 {
                assert(s.drop_last()[i] == c);
                assert(s.drop_last().contains(c));
                assert(p.contains(c));
                let j = choose|j: int| 0 <= j < p.len() && p[j] == c;
                if p.contains(s.last()) {
                    assert(ds[j] == c);
                } else {
                    assert(ds[j] == c);
                }
            } else {
                if p.contains(s.last()) {
                    let j = choose|j: int| 0 <= j < p.len() && p[j] == s.last();
                    assert(ds[j] == c);
                } else {
                    assert(ds[ds.len() - 1] == c);
                }
            }
        }
    }
}

/// A symbol occurs in `s` exactly when its count is positive.
pub proof fn lemma_count_positive(s: Seq<char>, c: char)
    ensures
        count_of(s, c) > 0 <==> s.contains(c),
    decreases s.len(),
{
    if s.len() > 0 {
        lemma_count_positive(s.drop_last(), c);
        if s.last() == c {
            assert(s[s.len() - 1] == c);
        } else {
            if s.drop_last().contains(c) {
                let i = choose|i: int| 0 <= i < s.drop_last().len() && s.drop_last()[i] == c;
                assert(s[i] == c);
            }
            if s.contains(c) && !s.drop_last().contains(c) {
                let i = choose|i: int| 0 <= i < s.len() && s[i] == c;
                assert(i < s.len() - 1 ==> s.drop_last()[i] == c);
            }
        }
    }
}

/// The sum of all counts in a list of frequency entries.
pub open spec fn total_count(entries: Seq<(char, u64)>) -> int
    decreases entries.len(),
{
    if entries.len() == 0 {
        0
    } else {
        total_count(entries.drop_last()) + entries.last().1
    }
}

/// Updating one count by one raises the total by one; appending a fresh
/// entry with count one does the same.
proof fn lemma_total_count_update(entries: Seq<(char, u64)>, j: int, e: (char, u64))
    requires
        0 <= j < entries.len(),
        e.1 == entries[j].1 + 1,
    ensures
        total_count(entries.update(j, e)) == total_count(entries) + 1,
    decreases entries.len(),
{
    if j == entries.len() - 1 {
        assert(entries.update(j, e).drop_last() =~= entries.drop_last());
        assert(entries.update(j, e).last() == e);
    } else {
        assert(entries.update(j, e).drop_last() =~= entries.drop_last().update(j, e));
        assert(entries.update(j, e).last() == entries.last());
        lemma_total_count_update(entries.drop_last(), j, e);
    }
}

/// Mapping from symbol to occurrence count over one input.  Pure data,
/// built once per compression run.
pub struct FreqTable {
    /// One `(symbol, count)` pair per distinct symbol of the input, in
    /// order of first occurrence.
    pub entries: Vec<(char, u64)>,
}

impl FreqTable {
    /// The symbols of the table, in entry order.
    pub open spec fn symbols(self) -> Seq<char> {
        self.entries@.map_values(|e: (char, u64)| e.0)
    }

    /// Well-formedness: symbols are distinct and every count is positive.
    pub open spec fn wf(self) -> bool {
        &&& self.symbols().no_duplicates()
        &&& forall|i: int| 0 <= i < self.entries@.len() ==> (#[trigger] self.entries@[i]).1 >= 1
    }

    /// Number of entries.
    pub fn len(&self) -> (n: usize)
        ensures
            n == self.entries@.len(),
    {
        self.entries.len()
    }
}

/// Builds the frequency table of `input`: one entry per distinct symbol,
/// in order of first occurrence, carrying its exact occurrence count.
pub fn count_frequencies(input: &Vec<char>) -> (t: FreqTable)
    ensures
        t.wf(),
        t.symbols() =~= distinct_symbols(input@),
        forall|i: int|
            0 <= i < t.entries@.len() ==> (#[trigger] t.entries@[i]).1 == count_of(
                input@,
                t.entries@[i].0,
            ),
        t.entries@.len() == 0 <==> input@.len() == 0,
        total_count(t.entries@) == input@.len(),
{
    let mut entries: Vec<(char, u64)> = Vec::new();
    let ghost full = input@;
    let mut i: usize = 0;
    while i < input.len()
        invariant
            0 <= i <= input@.len(),
            entries@.map_values(|e: (char, u64)| e.0) =~= distinct_symbols(input@.take(i as int)),
            forall|k: int|
                0 <= k < entries@.len() ==> (#[trigger] entries@[k]).1 == count_of(
                    input@.take(i as int),
                    entries@[k].0,
                ),
            forall|k: int| 0 <= k < entries@.len() ==> (#[trigger] entries@[k]).1 >= 1,
            entries@.map_values(|e: (char, u64)| e.0).no_duplicates(),
            total_count(entries@) == i,
        decreases input@.len() - i,
    {
        let c = input[i];
        let ghost prefix = input@.take(i as int);
        let ghost prefix1 = input@.take(i as int + 1);
        proof {
            assert(prefix1.drop_last() =~= prefix);
            assert(prefix1.last() == c);
            lemma_count_prefix_bound(prefix, c);
            lemma_distinct_symbols(prefix);
        }
        // find the symbol, if it is already present
        let mut j: usize = 0;
        let mut found: bool = false;
        while j < entries.len() && !found
            invariant
                0 <= j <= entries@.len(),
                found ==> j < entries@.len() && entries@[j as int].0 == c,
                !found ==> forall|k: int| 0 <= k < j ==> (#[trigger] entries@[k]).0 != c,
            decreases entries@.len() - j + if found { 0int } else { 1int },
        {
            if entries[j].0 == c {
                found = true;
            } else {
                j += 1;
            }
        }
        if found {
            let n = entries[j].1;
            proof {
                assert(entries@.map_values(|e: (char, u64)| e.0)[j as int] == c);
                assert(distinct_symbols(prefix).contains(c));
                assert(n == count_of(prefix, c));
                assert(count_of(prefix, c) < prefix.len() + 1);
            }
            proof {
                lemma_total_count_update(entries@, j as int, (c, (n + 1) as u64));
            }
            entries[j] = (c, n + 1);
            proof {
                assert(entries@.map_values(|e: (char, u64)| e.0) =~= distinct_symbols(prefix1));
                assert forall|k: int| 0 <= k < entries@.len() implies (#[trigger] entries@[k]).1
                    == count_of(prefix1, entries@[k].0) by {
                    if k == j {
                    } else {
                        assert(entries@.map_values(|e: (char, u64)| e.0)[k] == entries@[k].0);
                        assert(entries@.map_values(|e: (char, u64)| e.0)[j as int] == c);
                        assert(entries@[k].0 != c);
                    }
                }
            }
        } else {
            proof {
                assert(!distinct_symbols(prefix).contains(c)) by {
                    if distinct_symbols(prefix).contains(c) {
                        let k = choose|k: int|
                            0 <= k < distinct_symbols(prefix).len() && distinct_symbols(prefix)[k]
                                == c;
                        assert(entries@.map_values(|e: (char, u64)| e.0)[k] == c);
                        assert(entries@[k].0 == c);
                    }
                };
                lemma_count_positive(prefix, c);
            }
            let ghost old_entries = entries@;
            entries.push((c, 1));
            proof {
                assert(entries@.drop_last() =~= old_entries);
                assert(total_count(entries@) == i + 1);
                assert(entries@.map_values(|e: (char, u64)| e.0) =~= distinct_symbols(prefix).push(
                    c,
                ));
                assert(distinct_symbols(prefix1) =~= distinct_symbols(prefix).push(c));
                lemma_distinct_symbols(prefix1);
                assert forall|k: int| 0 <= k < entries@.len() implies (#[trigger] entries@[k]).1
                    == count_of(prefix1, entries@[k].0) by {
                    if k == entries@.len() - 1 {
                        assert(count_of(prefix, c) == 0);
                    } else {
                        assert(entries@.map_values(|e: (char, u64)| e.0)[k] == entries@[k].0);
                        assert(distinct_symbols(prefix).contains(entries@[k].0));
                        lemma_distinct_symbols(prefix);
                    }
                }
            }
        }
        i += 1;
    }
    proof {
        assert(input@.take(i as int) =~= input@);
        lemma_distinct_symbols(input@);
        if input@.len() > 0 {
            assert(input@.contains(input@[0]));
        }
    }
    FreqTable { entries }
}

/// The count of a symbol never exceeds the length of the sequence.
proof fn lemma_count_prefix_bound(s: Seq<char>, c: char)
    ensures
        count_of(s, c) <= s.len(),
    decreases s.len(),
{
    if s.len() > 0 {
        lemma_count_prefix_bound(s.drop_last(), c);
    }
}

} // verus!
