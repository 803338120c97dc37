//! The historical aggregator: an offline pass over previously persisted
//! daily snapshot files. Every file is counted; each one that parses
//! contributes its durations to the label it names; unparseable files are
//! skipped but still counted, so the average's divisor is the number of
//! files scanned, not the number parsed.

use vstd::prelude::*;
use vstd::relations::sorted_by;
use crate::codec::{p_snapshot, pairs_view, parse_snapshot};
use crate::stats::{
    calculate_avg, calculate_median, calculate_sum, median_rows, sum_rows, val_desc,
};

verus! {

/// The entries a file contributes: what it parses to, nothing when it does
/// not parse.
pub open spec fn file_entries(f: String) -> Seq<(Seq<char>, u64)> {
    match p_snapshot(f@) {
        Some(es) => es,
        None => Seq::empty(),
    }
}

/// The predicate that keeps the entries of one label.
pub open spec fn has_label(label: Seq<char>) -> spec_fn((Seq<char>, u64)) -> bool {
    |e: (Seq<char>, u64)| e.0 == label
}

/// The value of an entry.
pub open spec fn entry_val() -> spec_fn((Seq<char>, u64)) -> u64 {
    |e: (Seq<char>, u64)| e.1
}

/// The durations one entry list records for `label`, in order.
pub open spec fn durs_in(es: Seq<(Seq<char>, u64)>, label: Seq<char>) -> Seq<u64> {
    es.filter(has_label(label)).map_values(entry_val())
}

/// All durations the files record for `label`: one value per mention, file
/// by file, in order. A file where the label is absent contributes nothing.
pub open spec fn durations_for(files: Seq<String>, label: Seq<char>) -> Seq<u64>
    decreases files.len(),
{
    if files.len() == 0 {
        Seq::empty()
    } else {
        durs_in(file_entries(files[0]), label) + durations_for(files.drop_first(), label)
    }
}

/// Scanning one more file appends its durations for every label.
proof fn lemma_durations_snoc(files: Seq<String>, f: String)
    ensures
        forall|l: Seq<char>|
            #[trigger] durations_for(files.push(f), l) == durations_for(files, l) + durs_in(
                file_entries(f),
                l,
            ),
    decreases files.len(),
{
    if files.len() == 0 {
        assert forall|l: Seq<char>| #[trigger] durations_for(files.push(f), l) == durations_for(
            files,
            l,
        ) + durs_in(file_entries(f), l) by {
            reveal_with_fuel(durations_for, 3);
            assert(files.push(f)[0] == f);
            assert(durations_for(files.push(f), l) == durs_in(file_entries(f), l)
                + durations_for(files.push(f).drop_first(), l));
            assert(files.push(f).drop_first() =~= Seq::empty());
            assert(durations_for(files, l) =~= Seq::empty());
            assert(durations_for(files.push(f), l) =~= durs_in(file_entries(f), l));
            assert(durations_for(files, l) + durs_in(file_entries(f), l) =~= durs_in(
                file_entries(f),
                l,
            ));
        }
    } else {
        lemma_durations_snoc(files.drop_first(), f);
        assert forall|l: Seq<char>| #[trigger] durations_for(files.push(f), l) == durations_for(
            files,
            l,
        ) + durs_in(file_entries(f), l) by {
            reveal_with_fuel(durations_for, 3);
            assert(files.push(f)[0] == files[0]);
            assert(files.push(f).drop_first() =~= files.drop_first().push(f));
            assert(durations_for(files.drop_first().push(f), l) == durations_for(
                files.drop_first(),
                l,
            ) + durs_in(file_entries(f), l));
            assert(durs_in(file_entries(files[0]), l) + (durations_for(files.drop_first(), l)
                + durs_in(file_entries(f), l)) =~= (durs_in(file_entries(files[0]), l)
                + durations_for(files.drop_first(), l)) + durs_in(file_entries(f), l));
        }
    }
}

/// One more entry appends its value to its own label's durations and to no
/// other's.
proof fn lemma_durs_in_snoc(es: Seq<(Seq<char>, u64)>, e: (Seq<char>, u64))
    ensures
        forall|l: Seq<char>|
            #[trigger] durs_in(es.push(e), l) == durs_in(es, l) + (if e.0 == l {
                seq![e.1]
            } else {
                Seq::empty()
            }),
{
    assert forall|l: Seq<char>| #[trigger] durs_in(es.push(e), l) == durs_in(es, l) + (if e.0
        == l {
        seq![e.1]
    } else {
        Seq::empty()
    }) by {
        reveal_with_fuel(Seq::filter, 2);
        assert(es.push(e).drop_last() =~= es);
        assert(es.push(e).last() == e);
        let fs = es.filter(has_label(l));
        if e.0 == l {
            assert(es.push(e).filter(has_label(l)) == fs.push(e));
            assert(fs.push(e).map_values(entry_val()) =~= fs.map_values(entry_val()).push(e.1));
            assert(durs_in(es, l) + seq![e.1] =~= durs_in(es, l).push(e.1));
        } else {
            assert(es.push(e).filter(has_label(l)) == fs);
            assert(durs_in(es, l) + Seq::<u64>::empty() =~= durs_in(es, l));
        }
    }
}

/// The empty entry list records nothing.
proof fn lemma_durs_in_empty()
    ensures
        forall|l: Seq<char>| #[trigger] durs_in(Seq::empty(), l) == Seq::<u64>::empty(),
{
    assert forall|l: Seq<char>| #[trigger] durs_in(Seq::empty(), l) == Seq::<u64>::empty() by {
        reveal_with_fuel(Seq::filter, 2);
        assert(Seq::<(Seq<char>, u64)>::empty().filter(has_label(l)) =~= Seq::empty());
        assert(Seq::<(Seq<char>, u64)>::empty().filter(has_label(l)).map_values(entry_val())
            =~= Seq::empty());
    }
}

/// The running shape of the grouping: each group holds exactly the durations
/// of its label over the files scanned so far plus the partial entries of
/// the file in hand, no label twice, no group empty, and every label seen so
/// far has its group.
pub open spec fn groups_track(
    gs: Seq<(String, Vec<u64>)>,
    files: Seq<String>,
    partial: Seq<(Seq<char>, u64)>,
) -> bool {
    &&& forall|i: int, j: int| 0 <= i < j < gs.len() ==> gs[i].0@ != gs[j].0@
    &&& forall|i: int|
        0 <= i < gs.len() ==> (#[trigger] gs[i].1@ == durations_for(files, gs[i].0@) + durs_in(
            partial,
            gs[i].0@,
        ) && gs[i].1@.len() > 0)
    &&& forall|l: Seq<char>|
        (#[trigger] durations_for(files, l) + durs_in(partial, l)).len() > 0 ==> exists|i: int|
            0 <= i < gs.len() && gs[i].0@ == l
}

/// Whether `gs` has a group for every label the files record.
pub open spec fn covers(gs: Seq<(String, Vec<u64>)>, files: Seq<String>) -> bool {
    forall|l: Seq<char>|
        #[trigger] durations_for(files, l).len() > 0 ==> exists|i: int|
            0 <= i < gs.len() && gs[i].0@ == l
}

/// Finds the group of a label.
fn find_label(groups: &Vec<(String, Vec<u64>)>, label: &String) -> (r: Option<usize>)
    ensures
        match r {
            Some(idx) => idx < groups@.len() && groups@[idx as int].0@ == label@,
            None => forall|i: int| 0 <= i < groups@.len() ==> groups@[i].0@ != label@,
        },
{
    let mut i: usize = 0;
    while i < groups.len()
        invariant
            i <= groups@.len(),
            forall|t: int| 0 <= t < i ==> groups@[t].0@ != label@,
        decreases groups@.len() - i,
    {
        if groups[i].0.eq(label) {
            return Some(i);
        }
        i += 1;
    }
    None
}

/// Groups the durations of every label across the given snapshot file
/// contents: one group per label that any parsed file mentions, holding that
/// label's durations in scan order; files that do not parse contribute
/// nothing.
pub fn group_history(files: &Vec<String>) -> (r: Vec<(String, Vec<u64>)>)
    ensures
        forall|i: int, j: int| 0 <= i < j < r@.len() ==> r@[i].0@ != r@[j].0@,
        forall|i: int|
            0 <= i < r@.len() ==> (#[trigger] r@[i].1@ == durations_for(files@, r@[i].0@)
                && r@[i].1@.len() > 0),
        covers(r@, files@),
{
    let mut groups: Vec<(String, Vec<u64>)> = Vec::new();
    let mut f: usize = 0;
    proof {
        lemma_durs_in_empty();
        assert(files@.take(0) =~= Seq::empty());
        assert forall|l: Seq<char>| #[trigger] durations_for(files@.take(0), l) + durs_in(
            Seq::empty(),
            l,
        ) =~= Seq::<u64>::empty() by {
            assert(durations_for(files@.take(0), l) =~= Seq::<u64>::empty());
        }
    }
    while f < files.len()
        invariant
            f <= files@.len(),
            groups_track(groups@, files@.take(f as int), Seq::empty()),
        decreases files@.len() - f,
    {
        let ghost pre_files = files@.take(f as int);
        let parsed = parse_snapshot(files[f].as_str());
        proof {
            assert(files@.take(f + 1) =~= pre_files.push(files@[f as int]));
            lemma_durations_snoc(pre_files, files@[f as int]);
            lemma_durs_in_empty();
        }
        match parsed {
            None => {
                proof {
                    assert(file_entries(files@[f as int]) =~= Seq::empty());
                    assert forall|l: Seq<char>| #[trigger] durations_for(files@.take(f + 1), l)
                        == durations_for(pre_files, l) by {
                        assert(durations_for(pre_files, l) + durs_in(Seq::empty(), l)
                            =~= durations_for(pre_files, l));
                    }
                }
            },
            Some(pairs) => {
                let ghost pv = pairs_view(pairs@);
                proof {
                    assert(file_entries(files@[f as int]) == pv);
                    assert(pv.take(0) =~= Seq::empty());
                }
                let mut e: usize = 0;
                while e < pairs.len()
                    invariant
                        e <= pairs@.len(),
                        pv == pairs_view(pairs@),
                        f < files@.len(),
                        pre_files == files@.take(f as int),
                        groups_track(groups@, pre_files, pv.take(e as int)),
                    decreases pairs@.len() - e,
                {
                    let value: u64 = pairs[e].1;
                    let ghost entry = pv[e as int];
                    proof {
                        assert(entry == (pairs@[e as int].0@, pairs@[e as int].1));
                        assert(pv.take(e + 1) =~= pv.take(e as int).push(entry));
                        lemma_durs_in_snoc(pv.take(e as int), entry);
                    }
                    match find_label(&groups, &pairs[e].0) {
                        Some(idx) => {
                            let ghost pre_groups = groups@;
                            let mut one = groups.remove(idx);
                            one.1.push(value);
                            let ghost updated = one;
                            groups.insert(idx, one);
                            proof {
                                assert(groups@ =~= pre_groups.update(idx as int, updated));
                                assert(updated.1@ =~= pre_groups[idx as int].1@.push(value));
                                assert forall|i: int|
                                    0 <= i < groups@.len() implies (#[trigger] groups@[i].1@
                                    == durations_for(pre_files, groups@[i].0@) + durs_in(
                                    pv.take(e + 1),
                                    groups@[i].0@,
                                ) && groups@[i].1@.len() > 0) by {
                                    if i == idx {
                                        assert(groups@[i].0@ == entry.0);
                                        assert(durs_in(pv.take(e + 1), entry.0) == durs_in(
                                            pv.take(e as int),
                                            entry.0,
                                        ) + seq![entry.1]);
                                        assert(groups@[i].1@ =~= (durations_for(
                                            pre_files,
                                            entry.0,
                                        ) + durs_in(pv.take(e as int), entry.0)) + seq![entry.1]);
                                        assert((durations_for(pre_files, entry.0) + durs_in(
                                            pv.take(e as int),
                                            entry.0,
                                        )) + seq![entry.1] =~= durations_for(pre_files, entry.0)
                                            + (durs_in(pv.take(e as int), entry.0) + seq![
                                            entry.1,
                                        ]));
                                    } else {
                                        assert(groups@[i] == pre_groups[i]);
                                        assert(groups@[i].0@ != entry.0);
                                        assert(durs_in(pv.take(e + 1), groups@[i].0@) == durs_in(
                                            pv.take(e as int),
                                            groups@[i].0@,
                                        ) + Seq::<u64>::empty());
                                        assert(durs_in(pv.take(e as int), groups@[i].0@)
                                            + Seq::<u64>::empty() =~= durs_in(
                                            pv.take(e as int),
                                            groups@[i].0@,
                                        ));
                                    }
                                }
                                assert forall|l: Seq<char>|
                                    (#[trigger] durations_for(pre_files, l) + durs_in(
                                        pv.take(e + 1),
                                        l,
                                    )).len() > 0 implies exists|i: int|
                                    0 <= i < groups@.len() && groups@[i].0@ == l by {
                                    if l == entry.0 {
                                        assert(groups@[idx as int].0@ == l);
                                    } else {
                                        assert(durs_in(pv.take(e + 1), l) == durs_in(
                                            pv.take(e as int),
                                            l,
                                        ) + Seq::<u64>::empty());
                                        assert((durations_for(pre_files, l) + durs_in(
                                            pv.take(e as int),
                                            l,
                                        )).len() > 0);
                                        let w = choose|i: int|
                                            0 <= i < pre_groups.len() && pre_groups[i].0@ == l;
                                        assert(groups@[w].0@ == l);
                                    }
                                }
                            }
                        },
                        None => {
                            let label = pairs[e].0.clone();
                            let mut nv: Vec<u64> = Vec::new();
                            nv.push(value);
                            let ghost pre_groups = groups@;
                            groups.push((label, nv));
                            proof {
                                assert(groups@ =~= pre_groups.push((label, nv)));
                                assert(groups@[pre_groups.len() as int].0@ == entry.0);
                                assert((durations_for(pre_files, entry.0) + durs_in(
                                    pv.take(e as int),
                                    entry.0,
                                )).len() == 0);
                                assert forall|i: int|
                                    0 <= i < groups@.len() implies (#[trigger] groups@[i].1@
                                    == durations_for(pre_files, groups@[i].0@) + durs_in(
                                    pv.take(e + 1),
                                    groups@[i].0@,
                                ) && groups@[i].1@.len() > 0) by {
                                    if i == pre_groups.len() {
                                        assert(durs_in(pv.take(e + 1), entry.0) == durs_in(
                                            pv.take(e as int),
                                            entry.0,
                                        ) + seq![entry.1]);
                                        assert(groups@[i].1@ =~= seq![entry.1]);
                                        assert(durations_for(pre_files, entry.0) + (durs_in(
                                            pv.take(e as int),
                                            entry.0,
                                        ) + seq![entry.1]) =~= seq![entry.1]);
                                    } else {
                                        assert(groups@[i] == pre_groups[i]);
                                        assert(groups@[i].0@ != entry.0);
                                        assert(durs_in(pv.take(e + 1), groups@[i].0@) == durs_in(
                                            pv.take(e as int),
                                            groups@[i].0@,
                                        ) + Seq::<u64>::empty());
                                        assert(durs_in(pv.take(e as int), groups@[i].0@)
                                            + Seq::<u64>::empty() =~= durs_in(
                                            pv.take(e as int),
                                            groups@[i].0@,
                                        ));
                                    }
                                }
                                assert forall|i: int, j: int|
                                    0 <= i < j < groups@.len() implies groups@[i].0@
                                    != groups@[j].0@ by {
                                    if j == pre_groups.len() {
                                        assert(groups@[i].0@ != entry.0);
                                    }
                                }
                                assert forall|l: Seq<char>|
                                    (#[trigger] durations_for(pre_files, l) + durs_in(
                                        pv.take(e + 1),
                                        l,
                                    )).len() > 0 implies exists|i: int|
                                    0 <= i < groups@.len() && groups@[i].0@ == l by {
                                    if l == entry.0 {
                                        assert(groups@[pre_groups.len() as int].0@ == l);
                                    } else {
                                        assert(durs_in(pv.take(e + 1), l) == durs_in(
                                            pv.take(e as int),
                                            l,
                                        ) + Seq::<u64>::empty());
                                        assert((durations_for(pre_files, l) + durs_in(
                                            pv.take(e as int),
                                            l,
                                        )).len() > 0);
                                        let w = choose|i: int|
                                            0 <= i < pre_groups.len() && pre_groups[i].0@ == l;
                                        assert(groups@[w].0@ == l);
                                    }
                                }
                            }
                        },
                    }
                    e += 1;
                }
                proof {
                    assert(pv.take(pairs@.len() as int) =~= pv);
                    assert forall|l: Seq<char>| #[trigger] durations_for(files@.take(f + 1), l)
                        + durs_in(Seq::empty(), l) == durations_for(pre_files, l) + durs_in(
                        pv,
                        l,
                    ) by {
                        assert(durations_for(files@.take(f + 1), l) == durations_for(pre_files, l)
                            + durs_in(pv, l));
                        assert(durations_for(files@.take(f + 1), l) + durs_in(Seq::empty(), l)
                            =~= durations_for(files@.take(f + 1), l));
                    }
                }
            },
        }
        f += 1;
    }
    proof {
        assert(files@.take(files@.len() as int) =~= files@);
        lemma_durs_in_empty();
        assert forall|i: int| 0 <= i < groups@.len() implies (#[trigger] groups@[i].1@
            == durations_for(files@, groups@[i].0@) && groups@[i].1@.len() > 0) by {
            assert(groups@[i].1@ == durations_for(files@, groups@[i].0@) + durs_in(
                Seq::empty(),
                groups@[i].0@,
            ));
            assert(durations_for(files@, groups@[i].0@) + durs_in(Seq::empty(), groups@[i].0@)
                =~= durations_for(files@, groups@[i].0@));
        }
        assert forall|l: Seq<char>| durations_for(files@, l).len() > 0 implies exists|i: int|
            0 <= i < groups@.len() && groups@[i].0@ == l by {
            assert(durations_for(files@, l) + durs_in(Seq::empty(), l) =~= durations_for(
                files@,
                l,
            ));
            assert((durations_for(files@, l) + durs_in(Seq::empty(), l)).len() > 0);
        }
    }
    groups
}

/// The statistics derived once at startup from prior snapshot files.
pub struct HistoricalAggregate {
    /// How many files were scanned, parsed or not.
    pub file_count: usize,
    /// One group per label any parsed file mentions: the label's durations
    /// in scan order.
    pub groups: Vec<(String, Vec<u64>)>,
    /// Per-label total, descending by value.
    pub sums: Vec<(String, u64)>,
    /// Per-label average as numerator and divisor, descending by numerator;
    /// every divisor is the file count.
    pub avgs: Vec<(String, u64, u64)>,
    /// Per-label doubled median, descending by value.
    pub medians: Vec<(String, u64)>,
}

/// Aggregates the given snapshot file contents — today's file excluded by
/// the caller — into per-label sum, average and median. Every file counts
/// toward the average's divisor, also one that does not parse.
pub fn aggregate_history(files: &Vec<String>) -> (r: HistoricalAggregate)
    ensures
        r.file_count == files@.len(),
        forall|i: int, j: int| 0 <= i < j < r.groups@.len() ==> r.groups@[i].0@ != r.groups@[j].0@,
        forall|i: int|
            0 <= i < r.groups@.len() ==> (#[trigger] r.groups@[i].1@ == durations_for(
                files@,
                r.groups@[i].0@,
            ) && r.groups@[i].1@.len() > 0),
        covers(r.groups@, files@),
        sorted_by(r.sums@, val_desc()),
        r.sums@.to_multiset() == sum_rows(r.groups@).to_multiset(),
        sorted_by(r.medians@, val_desc()),
        r.medians@.to_multiset() == median_rows(r.groups@).to_multiset(),
        forall|i: int, j: int| 0 <= i < j < r.avgs@.len() ==> r.avgs@[i].1 >= r.avgs@[j].1,
        forall|i: int| 0 <= i < r.avgs@.len() ==> r.avgs@[i].2 == r.file_count,
        r.avgs@.map_values(|t: (String, u64, u64)| (t.0, t.1)).to_multiset() == sum_rows(
            r.groups@,
        ).to_multiset(),
{
    let groups = group_history(files);
    let sums = calculate_sum(&groups);
    let avgs = calculate_avg(&groups, files.len());
    let medians = calculate_median(&groups);
    HistoricalAggregate { file_count: files.len(), groups, sums, avgs, medians }
}

} // verus!
