//! Collecting the rotation candidates of a directory listing, ordering them,
//! enforcing the retention cap, and producing the rename plan.
//!
//! Candidates are sorted by destination name in plain lexicographic order —
//! not numerically, so generation 10 orders before generation 2; the retention
//! cap deletes from the end of that order, and the surviving renames are
//! applied in reverse order, so that every destination slot is vacated before
//! a lower-ordered member claims it.

use vstd::prelude::*;

use crate::names::{classify, spec_classify};
use crate::text::{lemma_lex_le_total, lemma_lex_le_trans, lex_le, lex_lt, str_lt};

verus! {

/// One planned rename: a current entry name and the destination name it
/// moves to, both relative to the rotation directory.
#[derive(Debug)]
pub struct Rename {
    pub source: String,
    pub destination: String,
}

/// The mathematical view of a planned rename.
pub ghost struct RenameModel {
    pub source: Seq<char>,
    pub destination: Seq<char>,
}

impl View for Rename {
    type V = RenameModel;

    open spec fn view(&self) -> RenameModel {
        RenameModel { source: self.source@, destination: self.destination@ }
    }
}

/// The models of a sequence of planned renames.
pub open spec fn models(v: Seq<Rename>) -> Seq<RenameModel> {
    v.map_values(|r: Rename| r@)
}

/// The views of a sequence of names.
pub open spec fn name_views(v: Seq<String>) -> Seq<Seq<char>> {
    v.map_values(|s: String| s@)
}

/// The sources of a sequence of candidates.
pub open spec fn sources(s: Seq<RenameModel>) -> Seq<Seq<char>> {
    s.map_values(|m: RenameModel| m.source)
}

/// The family members found among `entries`, in listing order, each with its
/// destination name.
pub open spec fn spec_candidates(entries: Seq<Seq<char>>, target: Seq<char>) -> Seq<RenameModel>
    decreases entries.len(),
{
    if entries.len() == 0 {
        Seq::empty()
    } else {
        spec_candidates(entries.drop_last(), target) + (match spec_classify(
            entries.last(),
            target,
        ) {
            Some(d) => seq![RenameModel { source: entries.last(), destination: d }],
            None => Seq::<RenameModel>::empty(),
        })
    }
}

/// Where a stable insertion by destination name places `m` in `s`: before
/// the first element whose destination orders strictly after `m`'s.
pub open spec fn spec_insert_pos(m: RenameModel, s: Seq<RenameModel>) -> int
    decreases s.len(),
{
    if s.len() == 0 {
        0
    } else if lex_lt(m.destination, s[0].destination) {
        0
    } else {
        1 + spec_insert_pos(m, s.skip(1))
    }
}

/// One insertion step of the stable sort by destination name.
pub open spec fn spec_insert(m: RenameModel, s: Seq<RenameModel>) -> Seq<RenameModel>
    decreases s.len(),
{
    if s.len() == 0 {
        seq![m]
    } else if lex_lt(m.destination, s[0].destination) {
        seq![m] + s
    } else {
        seq![s[0]] + spec_insert(m, s.skip(1))
    }
}

/// The candidates sorted by destination name: a stable insertion sort.
pub open spec fn spec_sort(s: Seq<RenameModel>) -> Seq<RenameModel>
    decreases s.len(),
{
    if s.len() == 0 {
        Seq::empty()
    } else {
        spec_insert(s.last(), spec_sort(s.drop_last()))
    }
}

/// Sorted by destination name in lexicographic order.
pub open spec fn sorted_by_destination(s: Seq<RenameModel>) -> bool {
    forall|x: int, y: int| 0 <= x < y < s.len() ==> lex_le(s[x].destination, s[y].destination)
}

/// How many candidates survive retention: all of them without a cap, at most
/// the cap with one.
pub open spec fn spec_keep_count(n: nat, max_old_files: Option<usize>) -> nat {
    match max_old_files {
        Some(m) => if n <= m as nat {
            n
        } else {
            m as nat
        },
        None => n,
    }
}

/// `spec_insert` places `m` at `spec_insert_pos`: everything before that
/// position orders no later than `m`, and the element at it (if any) orders
/// strictly after.
pub proof fn lemma_insert_decomposition(m: RenameModel, s: Seq<RenameModel>)
    ensures
        0 <= spec_insert_pos(m, s) <= s.len(),
        forall|k: int|
            0 <= k < spec_insert_pos(m, s) ==> !lex_lt(m.destination, s[k].destination),
        spec_insert_pos(m, s) < s.len() ==> lex_lt(
            m.destination,
            s[spec_insert_pos(m, s)].destination,
        ),
        spec_insert(m, s) =~= s.take(spec_insert_pos(m, s)) + seq![m] + s.skip(
            spec_insert_pos(m, s),
        ),
    decreases s.len(),
{
    if s.len() == 0 {
        assert(s.take(0) =~= Seq::<RenameModel>::empty());
        assert(s.skip(0) =~= Seq::<RenameModel>::empty());
    } else if lex_lt(m.destination, s[0].destination) {
        assert(s.take(0) =~= Seq::<RenameModel>::empty());
        assert(s.skip(0) =~= s);
    } else {
        lemma_insert_decomposition(m, s.skip(1));
        let p = spec_insert_pos(m, s.skip(1));
        assert(forall|k: int| 1 <= k < s.len() ==> s[k] == s.skip(1)[k - 1]);
        assert(s.take(p + 1) =~= seq![s[0]] + s.skip(1).take(p));
        assert(s.skip(p + 1) =~= s.skip(1).skip(p));
    }
}

/// Inserting into a sorted sequence keeps it sorted.
pub proof fn lemma_insert_sorted(m: RenameModel, s: Seq<RenameModel>)
    requires
        sorted_by_destination(s),
    ensures
        sorted_by_destination(spec_insert(m, s)),
{
    lemma_insert_decomposition(m, s);
    let p = spec_insert_pos(m, s);
    let r = spec_insert(m, s);
    if p < s.len() {
        lemma_lex_le_total(m.destination, s[p].destination);
    }
    assert forall|x: int, y: int| 0 <= x < y < r.len() implies lex_le(
        r[x].destination,
        r[y].destination,
    ) by {
        if x < p && y < p {
        } else if x < p && y == p {
            // r[y] is m; s[x] orders no later than m.
        } else if x < p && y > p {
        } else if x == p {
            // r[x] is m.
            if y > p + 1 && p < s.len() {
                lemma_lex_le_trans(m.destination, s[p].destination, s[y - 1].destination);
            }
        } else {
        }
    }
}

/// What `spec_insert` holds: `m`, and exactly the elements of `s`.
pub proof fn lemma_insert_contains(m: RenameModel, s: Seq<RenameModel>)
    ensures
        forall|x: RenameModel|
            #[trigger] spec_insert(m, s).contains(x) <==> (x == m || s.contains(x)),
{
    lemma_insert_decomposition(m, s);
    let p = spec_insert_pos(m, s);
    let r = spec_insert(m, s);
    assert forall|x: RenameModel| #[trigger] r.contains(x) implies (x == m || s.contains(x)) by {
        let i = choose|i: int| 0 <= i < r.len() && r[i] == x;
        if i < p {
            assert(s[i] == x);
        } else if i > p {
            assert(s[i - 1] == x);
        }
    }
    assert forall|x: RenameModel| (x == m || s.contains(x)) implies #[trigger] r.contains(x) by {
        if x == m {
            assert(r[p] == x);
        } else {
            let i = choose|i: int| 0 <= i < s.len() && s[i] == x;
            if i < p {
                assert(r[i] == x);
            } else {
                assert(r[i + 1] == x);
            }
        }
    }
}

/// What the sort returns: the same candidates, as many of them, sorted by
/// destination name.
pub proof fn lemma_sort(s: Seq<RenameModel>)
    ensures
        spec_sort(s).len() == s.len(),
        sorted_by_destination(spec_sort(s)),
        forall|x: RenameModel| #[trigger] spec_sort(s).contains(x) <==> s.contains(x),
    decreases s.len(),
{
    if s.len() == 0 {
    } else {
        let rest = s.drop_last();
        lemma_sort(rest);
        lemma_insert_decomposition(s.last(), spec_sort(rest));
        lemma_insert_sorted(s.last(), spec_sort(rest));
        lemma_insert_contains(s.last(), spec_sort(rest));
        assert forall|x: RenameModel| #[trigger] spec_sort(s).contains(x) implies s.contains(x) by {
            if x == s.last() {
                assert(s[s.len() - 1] == x);
            } else {
                let i = choose|i: int| 0 <= i < rest.len() && rest[i] == x;
                assert(s[i] == x);
            }
        }
        assert forall|x: RenameModel| s.contains(x) implies #[trigger] spec_sort(s).contains(x) by {
            let i = choose|i: int| 0 <= i < s.len() && s[i] == x;
            if i < s.len() - 1 {
                assert(rest[i] == x);
                assert(rest.contains(x));
            }
        }
    }
}

/// Every candidate is a classified family member: its destination is what the
/// classification rule gives for its source.
pub proof fn lemma_candidates_classified(entries: Seq<Seq<char>>, target: Seq<char>)
    ensures
        forall|x: RenameModel|
            #[trigger] spec_candidates(entries, target).contains(x) ==> spec_classify(
                x.source,
                target,
            ) == Some(x.destination),
    decreases entries.len(),
{
    if entries.len() == 0 {
    } else {
        let rest = entries.drop_last();
        lemma_candidates_classified(rest, target);
        let c = spec_candidates(entries, target);
        assert forall|x: RenameModel| #[trigger] c.contains(x) implies spec_classify(
            x.source,
            target,
        ) == Some(x.destination) by {
            let i = choose|i: int| 0 <= i < c.len() && c[i] == x;
            let cr = spec_candidates(rest, target);
            if i < cr.len() {
                assert(cr[i] == x);
                assert(cr.contains(x));
            }
        }
    }
}

/// Idempotence of absence: when no entry belongs to the family — no active
/// file and no rotated sibling — the pass plans no rename and no deletion.
pub proof fn lemma_absent_family_plans_nothing(entries: Seq<Seq<char>>, target: Seq<char>)
    requires
        forall|i: int| 0 <= i < entries.len() ==> spec_classify(#[trigger] entries[i], target) is None,
    ensures
        spec_candidates(entries, target) == Seq::<RenameModel>::empty(),
        spec_sort(spec_candidates(entries, target)) == Seq::<RenameModel>::empty(),
    decreases entries.len(),
{
    if entries.len() == 0 {
    } else {
        let rest = entries.drop_last();
        assert(forall|i: int| 0 <= i < rest.len() ==> rest[i] == entries[i]);
        lemma_absent_family_plans_nothing(rest, target);
        assert(spec_classify(entries.last(), target) is None);
        assert(spec_candidates(entries, target) =~= Seq::<RenameModel>::empty());
    }
}

/// Classification soundness: an entry that is no member of the family — the
/// prefix does not match, or the name has no rotated form — appears nowhere
/// among the sorted candidates, so it is never renamed and never deleted.
pub proof fn lemma_unrelated_entry_untouched(
    entries: Seq<Seq<char>>,
    target: Seq<char>,
    entry: Seq<char>,
)
    requires
        spec_classify(entry, target) is None,
    ensures
        forall|k: int|
            0 <= k < spec_sort(spec_candidates(entries, target)).len() ==> (#[trigger] spec_sort(
                spec_candidates(entries, target),
            )[k]).source != entry,
{
    let c = spec_candidates(entries, target);
    lemma_sort(c);
    lemma_candidates_classified(entries, target);
    assert forall|k: int| 0 <= k < spec_sort(c).len() implies (#[trigger] spec_sort(c)[k]).source
        != entry by {
        let x = spec_sort(c)[k];
        assert(spec_sort(c).contains(x));
        assert(spec_classify(x.source, target) == Some(x.destination));
    }
}

/// Shortening a suffix by one at the front appends that element to the
/// reversed suffix.
proof fn lemma_reverse_step<A>(s: Seq<A>, n: int)
    requires
        0 <= n < s.len(),
    ensures
        s.skip(n).reverse() == s.skip(n + 1).reverse().push(s[n]),
{
    let lhs = s.skip(n).reverse();
    let rhs = s.skip(n + 1).reverse().push(s[n]);
    assert forall|i: int| 0 <= i < lhs.len() implies lhs[i] == rhs[i] by {
        assert(lhs[i] == s.skip(n)[s.len() - n - 1 - i]);
        if i < lhs.len() - 1 {
            assert(rhs[i] == s.skip(n + 1)[s.len() - n - 2 - i]);
        }
    }
    assert(lhs =~= rhs);
}

/// The models of a sequence of renames, after appending one.
proof fn lemma_models_push(v: Seq<Rename>, x: Rename)
    ensures
        models(v.push(x)) == models(v).push(x@),
{
    assert(models(v.push(x)) =~= models(v).push(x@));
}

/// The views of a sequence of names, after appending one.
proof fn lemma_name_views_push(v: Seq<String>, x: String)
    ensures
        name_views(v.push(x)) == name_views(v).push(x@),
{
    assert(name_views(v.push(x)) =~= name_views(v).push(x@));
}

/// Taking sources commutes with dropping a prefix.
proof fn lemma_sources_skip(s: Seq<RenameModel>, n: int)
    requires
        0 <= n <= s.len(),
    ensures
        sources(s.skip(n)) == sources(s).skip(n),
{
    assert(sources(s.skip(n)) =~= sources(s).skip(n));
}

/// A rotation pass, resolved to a directory, a target file name, and the
/// retention cap.
#[derive(Debug)]
pub struct RotationTarget {
    /// The directory whose entries are classified and renamed.
    pub directory: String,
    /// The derived file name of the active file, used for family matching.
    pub file_name: String,
    /// The maximum number of rotated files kept, unbounded when `None`.
    pub max_old_files: Option<usize>,
}

/// What one rotation pass does, in execution order: first the deletions, then
/// the renames.  All names are relative to the rotation directory.
#[derive(Debug)]
pub struct RotationPlan {
    /// Entry names to delete: the candidates past the retention cap, ordered
    /// from the last in sort order backwards.
    pub deletions: Vec<String>,
    /// Renames to apply, highest-ordered destination first, so that no rename
    /// overwrites a family member that has not moved yet.
    pub renames: Vec<Rename>,
}

impl RotationTarget {
    /// Computes the rotation plan for one directory listing.
    ///
    /// The entries are classified against the target file name; family
    /// members are sorted by destination name (plain lexicographic order);
    /// with a retention cap of `max`, candidates are removed from the end of
    /// the sort order until at most `max` remain, and are listed for
    /// deletion in that order; the survivors are listed for rename in
    /// reverse sort order.
    pub fn plan(&self, entries: &Vec<String>) -> (r: RotationPlan)
        ensures
            ({
                let sorted = spec_sort(spec_candidates(name_views(entries@), self.file_name@));
                let keep = spec_keep_count(sorted.len(), self.max_old_files) as int;
                &&& models(r.renames@) == sorted.take(keep).reverse()
                &&& name_views(r.deletions@) == sources(sorted.skip(keep)).reverse()
            }),
    {
        let ghost all = name_views(entries@);
        let ghost target_view = self.file_name@;
        let mut sorted: Vec<Rename> = Vec::new();
        let mut idx: usize = 0;
        proof {
            assert(all.take(0) =~= Seq::<Seq<char>>::empty());
            assert(models(sorted@) =~= spec_sort(spec_candidates(all.take(0), target_view)));
        }
        while idx < entries.len()
            invariant
                idx <= entries.len(),
                all == name_views(entries@),
                target_view == self.file_name@,
                models(sorted@) == spec_sort(spec_candidates(all.take(idx as int), target_view)),
                sorted_by_destination(models(sorted@)),
            decreases entries.len() - idx,
        {
            let ghost prev = models(sorted@);
            let ghost prev_entries = all.take(idx as int);
            proof {
                assert(all.take(idx as int + 1).drop_last() =~= prev_entries);
                assert(all.take(idx as int + 1).last() == entries@[idx as int]@);
            }
            match classify(&entries[idx], &self.file_name) {
                Some(destination) => {
                    let cand = Rename { source: entries[idx].clone(), destination };
                    let ghost cm = cand@;
                    proof {
                        assert(spec_candidates(all.take(idx as int + 1), target_view)
                            =~= spec_candidates(prev_entries, target_view) + seq![cm]);
                        assert(spec_candidates(prev_entries, target_view) + seq![cm] != Seq::<
                            RenameModel,
                        >::empty());
                        assert((spec_candidates(prev_entries, target_view)
                            + seq![cm]).drop_last() =~= spec_candidates(prev_entries, target_view));
                        lemma_insert_decomposition(cm, prev);
                        lemma_insert_sorted(cm, prev);
                    }
                    let mut p: usize = 0;
                    while p < sorted.len() && !str_lt(
                        cand.destination.as_str(),
                        sorted[p].destination.as_str(),
                    )
                        invariant
                            0 <= p <= sorted.len(),
                            models(sorted@) == prev,
                            cand@ == cm,
                            forall|k: int|
                                0 <= k < p ==> !lex_lt(cm.destination, prev[k].destination),
                        decreases sorted.len() - p,
                    {
                        p += 1;
                    }
                    proof {
                        let sp = spec_insert_pos(cm, prev);
                        assert(p as int == sp) by {
                            if (p as int) < sp {
                                assert(!lex_lt(cm.destination, prev[p as int].destination));
                            }
                            if (p as int) > sp {
                                assert(!lex_lt(cm.destination, prev[sp].destination));
                            }
                        }
                    }
                    sorted.insert(p, cand);
                    proof {
                        assert(models(sorted@) =~= prev.take(p as int) + seq![cm] + prev.skip(
                            p as int,
                        ));
                    }
                },
                None => {
                    proof {
                        assert(spec_candidates(all.take(idx as int + 1), target_view)
                            =~= spec_candidates(prev_entries, target_view));
                    }
                },
            }
            idx += 1;
        }
        proof {
            assert(all.take(entries@.len() as int) =~= all);
        }
        let ghost sorted_model = models(sorted@);
        let ghost keep = spec_keep_count(sorted_model.len(), self.max_old_files) as int;
        let mut deletions: Vec<String> = Vec::new();
        match self.max_old_files {
            Some(max) => {
                proof {
                    assert(name_views(deletions@) =~= sources(sorted_model.skip(
                        sorted_model.len() as int,
                    )).reverse());
                }
                while sorted.len() > max
                    invariant
                        keep <= sorted@.len() <= sorted_model.len(),
                        keep == spec_keep_count(sorted_model.len(), Some(max)),
                        models(sorted@) == sorted_model.take(sorted@.len() as int),
                        name_views(deletions@) == sources(sorted_model.skip(
                            sorted@.len() as int,
                        )).reverse(),
                    decreases sorted@.len(),
                {
                    let ghost len = sorted@.len() as int;
                    let ghost before = sorted@;
                    let ghost dels_before = deletions@;
                    match sorted.pop() {
                        Some(dropped) => {
                            proof {
                                assert(models(before)[len - 1] == before[len - 1]@);
                                assert(sorted_model.take(len)[len - 1] == sorted_model[len - 1]);
                                assert(dropped@ == sorted_model[len - 1]);
                                assert(models(sorted@) =~= sorted_model.take(len - 1));
                            }
                            let ghost src = dropped.source@;
                            proof {
                                lemma_name_views_push(dels_before, dropped.source);
                            }
                            deletions.push(dropped.source);
                            proof {
                                lemma_sources_skip(sorted_model, len - 1);
                                lemma_sources_skip(sorted_model, len);
                                lemma_reverse_step(sources(sorted_model), len - 1);
                                assert(sources(sorted_model)[len - 1] == src);
                                assert(name_views(deletions@) == sources(sorted_model.skip(
                                    len - 1,
                                )).reverse());
                            }
                        },
                        None => {
                            proof {
                                assert(false);
                            }
                        },
                    }
                }
            },
            None => {
                proof {
                    assert(name_views(deletions@) =~= sources(sorted_model.skip(keep)).reverse());
                }
            },
        }
        proof {
            assert(sorted@.len() as int == keep);
            assert(models(sorted@) == sorted_model.take(keep));
        }
        let ghost kept = sorted_model.take(keep);
        let mut renames: Vec<Rename> = Vec::new();
        proof {
            assert(models(renames@) =~= kept.skip(kept.len() as int).reverse());
        }
        while sorted.len() > 0
            invariant
                sorted@.len() <= kept.len(),
                models(sorted@) == kept.take(sorted@.len() as int),
                models(renames@) == kept.skip(sorted@.len() as int).reverse(),
            decreases sorted@.len(),
        {
            let ghost len = sorted@.len() as int;
            let ghost before = sorted@;
            let ghost renames_before = renames@;
            match sorted.pop() {
                Some(next) => {
                    proof {
                        assert(models(before)[len - 1] == before[len - 1]@);
                        assert(kept.take(len)[len - 1] == kept[len - 1]);
                        assert(next@ == kept[len - 1]);
                        assert(models(sorted@) =~= kept.take(len - 1));
                    }
                    proof {
                        lemma_models_push(renames_before, next);
                    }
                    renames.push(next);
                    proof {
                        lemma_reverse_step(kept, len - 1);
                        assert(models(renames@) == kept.skip(len - 1).reverse());
                    }
                },
                None => {
                    proof {
                        assert(false);
                    }
                },
            }
        }
        proof {
            assert(models(renames@) =~= kept.reverse());
            assert(kept.skip(0) =~= kept);
        }
        RotationPlan { deletions, renames }
    }
}

} // verus!
