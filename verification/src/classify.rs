//! The library-function classifier: reconciles signature matches against
//! the workspace's function catalogue and partitions the catalogue into a
//! library-function result and an unclassified residue.

use vstd::prelude::*;

use crate::sigload::{entries_view, match_entry_views, signature_match_entries};
use crate::workspace::Workspace;

verus! {

/// The content of a catalogue or result list: names as character sequences.
pub open spec fn pairs_view(s: Seq<(String, i32)>) -> Seq<(Seq<char>, i32)> {
    s.map_values(|p: (String, i32)| (p.0@, p.1))
}

/// Whether some catalogue entry carries the name `n`.
pub open spec fn view_contains_name(cat: Seq<(Seq<char>, i32)>, n: Seq<char>) -> bool {
    exists|i: int| 0 <= i < cat.len() && (#[trigger] cat[i]).0 == n
}

/// The catalogue with its first entry named `n` removed.
pub open spec fn view_remove_first(cat: Seq<(Seq<char>, i32)>, n: Seq<char>) -> Seq<
    (Seq<char>, i32),
>
    decreases cat.len(),
{
    if cat.len() == 0 {
        cat
    } else if cat.first().0 == n {
        cat.drop_first()
    } else {
        seq![cat.first()] + view_remove_first(cat.drop_first(), n)
    }
}

/// One classification run, processing matches in the matcher's native
/// order: a named match whose name is still in the working catalogue moves
/// that name into the library result, paired with the match's function
/// size; any other match is discarded. The result is (library functions,
/// residual catalogue).
pub open spec fn classify_spec(
    lib: Seq<(Seq<char>, i32)>,
    cat: Seq<(Seq<char>, i32)>,
    ms: Seq<(Option<Seq<char>>, u64)>,
) -> (Seq<(Seq<char>, i32)>, Seq<(Seq<char>, i32)>)
    decreases ms.len(),
{
    if ms.len() == 0 {
        (lib, cat)
    } else {
        let m = ms.first();
        let rest = ms.drop_first();
        match m.0 {
            None => classify_spec(lib, cat, rest),
            Some(name) => if view_contains_name(cat, name) {
                classify_spec(lib.push((name, m.1 as i32)), view_remove_first(cat, name), rest)
            } else {
                classify_spec(lib, cat, rest)
            },
        }
    }
}

/// The index of the first catalogue entry named `n`, if any.
fn find_name_index(cat: &Vec<(String, i32)>, n: &String) -> (r: Option<usize>)
    ensures
        match r {
            Some(p) => 0 <= p < cat@.len() && cat@[p as int].0@ == n@ && forall|j: int|
                0 <= j < p ==> (#[trigger] cat@[j]).0@ != n@,
            None => forall|j: int| 0 <= j < cat@.len() ==> (#[trigger] cat@[j]).0@ != n@,
        },
{
    let mut i: usize = 0;
    while i < cat.len()
        invariant
            0 <= i <= cat@.len(),
            forall|j: int| 0 <= j < i ==> (#[trigger] cat@[j]).0@ != n@,
        decreases cat@.len() - i,
    {
        if cat[i].0 == *n {
            return Some(i);
        }
        i += 1;
    }
    None
}

proof fn lemma_view_remove_first_at(cat: Seq<(Seq<char>, i32)>, n: Seq<char>, pos: int)
    requires
        0 <= pos < cat.len(),
        cat[pos].0 == n,
        forall|j: int| 0 <= j < pos ==> (#[trigger] cat[j]).0 != n,
    ensures
        view_remove_first(cat, n) == cat.remove(pos),
    decreases pos,
{
    if pos == 0 {
        assert(cat.first().0 == n);
        assert(view_remove_first(cat, n) =~= cat.remove(0));
    } else {
        assert(cat[0].0 != n);
        lemma_view_remove_first_at(cat.drop_first(), n, pos - 1);
        assert(view_remove_first(cat, n) == seq![cat.first()] + cat.drop_first().remove(pos - 1));
        assert(seq![cat.first()] + cat.drop_first().remove(pos - 1) =~= cat.remove(pos));
    }
}

/// Run one classification pass: process the matches in order against a
/// working copy of the catalogue, and return (library functions, residual
/// catalogue).
pub fn classify_matches(catalogue: &Vec<(String, i32)>, matches: &Vec<(Option<String>, u64)>) -> (r:
    (Vec<(String, i32)>, Vec<(String, i32)>))
    ensures
        (pairs_view(r.0@), pairs_view(r.1@)) == classify_spec(
            Seq::empty(),
            pairs_view(catalogue@),
            entries_view(matches@),
        ),
{
    let mut lib: Vec<(String, i32)> = Vec::new();
    let mut rem: Vec<(String, i32)> = Vec::new();
    let mut i: usize = 0;
    while i < catalogue.len()
        invariant
            0 <= i <= catalogue@.len(),
            pairs_view(rem@) == pairs_view(catalogue@.take(i as int)),
        decreases catalogue@.len() - i,
    {
        let ghost prev = rem@;
        rem.push((catalogue[i].0.clone(), catalogue[i].1));
        proof {
            assert(pairs_view(rem@) =~= pairs_view(prev).push(
                (catalogue@[i as int].0@, catalogue@[i as int].1),
            ));
            assert(pairs_view(catalogue@.take(i + 1)) =~= pairs_view(
                catalogue@.take(i as int),
            ).push((catalogue@[i as int].0@, catalogue@[i as int].1)));
        }
        i += 1;
    }
    proof {
        assert(catalogue@.take(catalogue@.len() as int) == catalogue@);
        assert(pairs_view(rem@) == pairs_view(catalogue@));
    }
    let ghost goal = classify_spec(Seq::empty(), pairs_view(catalogue@), entries_view(matches@));
    let ghost all_entries = entries_view(matches@);
    proof {
        assert(pairs_view(lib@) =~= Seq::<(Seq<char>, i32)>::empty());
        assert(all_entries.skip(0) =~= all_entries);
    }
    let mut k: usize = 0;
    while k < matches.len()
        invariant
            0 <= k <= matches@.len(),
            all_entries == entries_view(matches@),
            all_entries.len() == matches@.len(),
            goal == classify_spec(Seq::empty(), pairs_view(catalogue@), entries_view(matches@)),
            classify_spec(pairs_view(lib@), pairs_view(rem@), all_entries.skip(k as int)) == goal,
        decreases matches@.len() - k,
    {
        proof {
            assert(all_entries.skip(k as int).first() == all_entries[k as int]);
            assert(all_entries.skip(k as int).drop_first() =~= all_entries.skip(k + 1));
        }
        match &matches[k].0 {
            None => {
                proof {
                    assert(all_entries[k as int].0 is None);
                }
            },
            Some(name) => {
                proof {
                    assert(all_entries[k as int].0 == Some(name@));
                }
                match find_name_index(&rem, name) {
                    None => {
                        proof {
                            assert(forall|j: int|
                                0 <= j < pairs_view(rem@).len() ==> (#[trigger] pairs_view(
                                    rem@,
                                )[j]).0 != name@);
                            assert(!view_contains_name(pairs_view(rem@), name@));
                        }
                    },
                    Some(pos) => {
                        let ghost prev_lib = lib@;
                        let ghost prev_rem = rem@;
                        let size = matches[k].1;
                        lib.push((name.clone(), #[verifier::truncate] (size as i32)));
                        rem.remove(pos);
                        proof {
                            assert((#[trigger] pairs_view(prev_rem)[pos as int]).0 == name@);
                            assert(view_contains_name(pairs_view(prev_rem), name@));
                            assert(forall|j: int|
                                0 <= j < pos ==> (#[trigger] pairs_view(prev_rem)[j]).0 != name@);
                            lemma_view_remove_first_at(pairs_view(prev_rem), name@, pos as int);
                            assert(pairs_view(rem@) =~= pairs_view(prev_rem).remove(pos as int));
                            assert(pairs_view(lib@) =~= pairs_view(prev_lib).push(
                                (name@, all_entries[k as int].1 as i32),
                            ));
                        }
                    },
                }
            },
        }
        k += 1;
    }
    proof {
        assert(all_entries.skip(matches@.len() as int).len() == 0);
        assert(classify_spec(pairs_view(lib@), pairs_view(rem@), all_entries.skip(
            matches@.len() as int,
        )) == (pairs_view(lib@), pairs_view(rem@)));
    }
    (lib, rem)
}

/// Whether catalogue names are pairwise distinct.
pub open spec fn distinct_names(cat: Seq<(Seq<char>, i32)>) -> bool {
    forall|i: int, j: int|
        0 <= i < j < cat.len() ==> (#[trigger] cat[i]).0 != (#[trigger] cat[j]).0
}

/// The set of names a catalogue carries.
pub open spec fn name_set(cat: Seq<(Seq<char>, i32)>) -> Set<Seq<char>> {
    Set::new(|n: Seq<char>| view_contains_name(cat, n))
}

proof fn lemma_remove_first_props(cat: Seq<(Seq<char>, i32)>, n: Seq<char>)
    requires
        distinct_names(cat),
        view_contains_name(cat, n),
    ensures
        distinct_names(view_remove_first(cat, n)),
        name_set(view_remove_first(cat, n)) == name_set(cat).remove(n),
        !view_contains_name(view_remove_first(cat, n), n),
    decreases cat.len(),
{
    let r = view_remove_first(cat, n);
    if cat.first().0 == n {
        assert(r == cat.drop_first());
        assert forall|i: int, j: int| 0 <= i < j < r.len() implies (#[trigger] r[i]).0 != (
        #[trigger] r[j]).0 by {
            assert(cat[i + 1].0 == r[i].0);
            assert(cat[j + 1].0 == r[j].0);
        }
        assert forall|k: int| 0 <= k < r.len() implies (#[trigger] r[k]).0 != n by {
            assert(r[k] == cat[k + 1]);
            assert(cat[0].0 == n);
        }
        assert forall|m: Seq<char>|
            name_set(r).contains(m) == name_set(cat).remove(n).contains(m) by {
            if view_contains_name(r, m) {
                let i = choose|i: int| 0 <= i < r.len() && (#[trigger] r[i]).0 == m;
                assert(cat[i + 1].0 == m);
                assert(view_contains_name(cat, m));
                assert(m != n);
            }
            if m != n && view_contains_name(cat, m) {
                let i = choose|i: int| 0 <= i < cat.len() && (#[trigger] cat[i]).0 == m;
                if i == 0 {
                    assert(m == n);
                } else {
                    assert(r[i - 1].0 == m);
                    assert(view_contains_name(r, m));
                }
            }
        }
        assert(name_set(r) =~= name_set(cat).remove(n));
    } else {
        let tail = cat.drop_first();
        let i0 = choose|i: int| 0 <= i < cat.len() && (#[trigger] cat[i]).0 == n;
        assert(i0 != 0);
        assert(tail[i0 - 1].0 == n);
        assert(view_contains_name(tail, n));
        assert forall|i: int, j: int| 0 <= i < j < tail.len() implies (#[trigger] tail[i]).0 != (
        #[trigger] tail[j]).0 by {
            assert(cat[i + 1].0 == tail[i].0);
            assert(cat[j + 1].0 == tail[j].0);
        }
        lemma_remove_first_props(tail, n);
        let sub = view_remove_first(tail, n);
        assert(r == seq![cat.first()] + sub);
        assert(r[0] == cat.first());
        assert(forall|k: int| 0 <= k < sub.len() ==> r[k + 1] == sub[k]);
        // the head's name is not among the tail's names, hence not in `sub`
        assert forall|k: int| 0 <= k < sub.len() implies (#[trigger] sub[k]).0 != cat.first().0 by {
            assert(name_set(sub).contains(sub[k].0));
            assert(view_contains_name(tail, sub[k].0));
            let i = choose|i: int| 0 <= i < tail.len() && (#[trigger] tail[i]).0 == sub[k].0;
            assert(cat[i + 1].0 == sub[k].0);
            assert(cat[0].0 != cat[i + 1].0);
        }
        assert forall|i: int, j: int| 0 <= i < j < r.len() implies (#[trigger] r[i]).0 != (
        #[trigger] r[j]).0 by {
            if i == 0 {
                assert(r[j].0 == sub[j - 1].0);
            } else {
                assert(r[i].0 == sub[i - 1].0);
                assert(r[j].0 == sub[j - 1].0);
            }
        }
        assert forall|k: int| 0 <= k < r.len() implies (#[trigger] r[k]).0 != n by {
            if k == 0 {
            } else {
                assert(r[k].0 == sub[k - 1].0);
                assert(!view_contains_name(sub, n));
                assert(name_set(sub).contains(sub[k - 1].0));
            }
        }
        assert forall|m: Seq<char>|
            name_set(r).contains(m) == name_set(cat).remove(n).contains(m) by {
            if view_contains_name(r, m) {
                let i = choose|i: int| 0 <= i < r.len() && (#[trigger] r[i]).0 == m;
                assert(m != n);
                if i == 0 {
                    assert(cat[0].0 == m);
                    assert(view_contains_name(cat, m));
                } else {
                    assert(sub[i - 1].0 == m);
                    assert(name_set(sub).contains(m));
                    assert(view_contains_name(tail, m));
                    let t = choose|t: int| 0 <= t < tail.len() && (#[trigger] tail[t]).0 == m;
                    assert(cat[t + 1].0 == m);
                    assert(view_contains_name(cat, m));
                }
            }
            if m != n && view_contains_name(cat, m) {
                let i = choose|i: int| 0 <= i < cat.len() && (#[trigger] cat[i]).0 == m;
                if i == 0 {
                    assert(r[0].0 == m);
                    assert(view_contains_name(r, m));
                } else {
                    assert(tail[i - 1].0 == m);
                    assert(view_contains_name(tail, m));
                    assert(name_set(sub).contains(m));
                    let s = choose|s: int| 0 <= s < sub.len() && (#[trigger] sub[s]).0 == m;
                    assert(r[s + 1].0 == m);
                    assert(view_contains_name(r, m));
                }
            }
        }
        assert(name_set(r) =~= name_set(cat).remove(n));
    }
}

proof fn lemma_classify_partition_general(
    lib: Seq<(Seq<char>, i32)>,
    cat: Seq<(Seq<char>, i32)>,
    ms: Seq<(Option<Seq<char>>, u64)>,
)
    requires
        distinct_names(cat),
        name_set(lib).disjoint(name_set(cat)),
    ensures
        ({
            let (l, u) = classify_spec(lib, cat, ms);
            &&& name_set(l).disjoint(name_set(u))
            &&& name_set(l).union(name_set(u)) == name_set(lib).union(name_set(cat))
            &&& distinct_names(u)
        }),
    decreases ms.len(),
{
    if ms.len() == 0 {
        assert(classify_spec(lib, cat, ms) == (lib, cat));
    } else {
        let m = ms.first();
        let rest = ms.drop_first();
        match m.0 {
            None => {
                lemma_classify_partition_general(lib, cat, rest);
            },
            Some(name) => {
                if view_contains_name(cat, name) {
                    let lib2 = lib.push((name, m.1 as i32));
                    let cat2 = view_remove_first(cat, name);
                    lemma_remove_first_props(cat, name);
                    assert forall|x: Seq<char>|
                        name_set(lib2).contains(x) == name_set(lib).insert(name).contains(x) by {
                        if view_contains_name(lib2, x) {
                            let i = choose|i: int|
                                0 <= i < lib2.len() && (#[trigger] lib2[i]).0 == x;
                            if i < lib.len() {
                                assert(lib[i].0 == x);
                                assert(view_contains_name(lib, x));
                            } else {
                                assert(x == name);
                            }
                        }
                        if x == name {
                            assert(lib2[lib.len() as int].0 == x);
                            assert(view_contains_name(lib2, x));
                        }
                        if view_contains_name(lib, x) {
                            let i = choose|i: int| 0 <= i < lib.len() && (#[trigger] lib[i]).0 == x;
                            assert(lib2[i].0 == x);
                            assert(view_contains_name(lib2, x));
                        }
                    }
                    assert(name_set(lib2) =~= name_set(lib).insert(name));
                    assert(name_set(lib2).disjoint(name_set(cat2)));
                    lemma_classify_partition_general(lib2, cat2, rest);
                    assert(name_set(lib2).union(name_set(cat2)) =~= name_set(lib).union(
                        name_set(cat),
                    ));
                } else {
                    lemma_classify_partition_general(lib, cat, rest);
                }
            },
        }
    }
}

/// Partition invariant: classification splits the catalogue's names into
/// the library result and the unclassified residue — the two name sets are
/// disjoint and their union is exactly the catalogue's name set, and the
/// residue keeps its names pairwise distinct.
pub proof fn lemma_classification_partition(
    cat: Seq<(Seq<char>, i32)>,
    ms: Seq<(Option<Seq<char>>, u64)>,
)
    requires
        distinct_names(cat),
    ensures
        ({
            let (l, u) = classify_spec(Seq::empty(), cat, ms);
            &&& name_set(l).disjoint(name_set(u))
            &&& name_set(l).union(name_set(u)) == name_set(cat)
            &&& distinct_names(u)
        }),
{
    let e = Seq::<(Seq<char>, i32)>::empty();
    assert(name_set(e) =~= Set::<Seq<char>>::empty());
    lemma_classify_partition_general(e, cat, ms);
    let (l, u) = classify_spec(e, cat, ms);
    assert(name_set(l).union(name_set(u)) =~= name_set(cat));
}

/// Classification is deterministic and idempotent: one run replaces the
/// result sets but leaves the catalogue unchanged, so a second run over the
/// produced workspace, with the same signatures and sample bytes, computes
/// the same function of the same inputs and yields the identical partition.
pub proof fn lemma_classification_idempotent(
    before: Workspace,
    after: Workspace,
    sigs: Seq<lancelot_flirt::FlirtSignature>,
    sample: Seq<u8>,
)
    requires
        after.function_catalogue == before.function_catalogue,
        (pairs_view(after.library_functions@), pairs_view(after.unclassified_functions@))
            == classify_spec(
            Seq::empty(),
            pairs_view(before.function_catalogue@),
            match_entry_views(sigs, sample),
        ),
    ensures
        classify_spec(
            Seq::empty(),
            pairs_view(after.function_catalogue@),
            match_entry_views(sigs, sample),
        ) == (pairs_view(after.library_functions@), pairs_view(after.unclassified_functions@)),
{
}

/// The analyzer that classifies catalogue functions as library code by
/// matching loaded signatures over the sample's bytes.
pub struct FlirtFunctionAnalyzer {
    /// The loaded signatures the analyzer matches with.
    pub signatures: Vec<lancelot_flirt::FlirtSignature>,
    /// A display name for the analyzer, normally the signature source path.
    pub name: String,
}

impl FlirtFunctionAnalyzer {
    /// An analyzer over the given loaded signatures.
    pub fn new(signatures: Vec<lancelot_flirt::FlirtSignature>, name: String) -> (r:
        FlirtFunctionAnalyzer)
        ensures
            r.signatures@ == signatures@,
            r.name@ == name@,
    {
        FlirtFunctionAnalyzer { signatures, name }
    }

    /// Classify the workspace's catalogued functions against the sample's
    /// bytes: run the signatures over the buffer, move every catalogued
    /// function a named match recognises into `library_functions` (with the
    /// match's function size), and leave the residue in
    /// `unclassified_functions`. Both result sets are replaced outright;
    /// the catalogue itself is left unchanged. The signatures must come
    /// from a loader that screens tail-byte offsets, as the library's
    /// pattern loaders do.
    pub fn analyze(&self, workspace: &mut Workspace, sample: &Vec<u8>)
        requires
            forall|k: int|
                0 <= k < self.signatures@.len() ==> crate::sigload::tail_offsets_bounded(
                    #[trigger] self.signatures@[k],
                ),
        ensures
            (pairs_view(final(workspace).library_functions@), pairs_view(
                final(workspace).unclassified_functions@,
            )) == classify_spec(
                Seq::empty(),
                pairs_view(old(workspace).function_catalogue@),
                match_entry_views(self.signatures@, sample@),
            ),
            *final(workspace) == (Workspace {
                library_functions: final(workspace).library_functions,
                unclassified_functions: final(workspace).unclassified_functions,
                ..*old(workspace)
            }),
            distinct_names(pairs_view(old(workspace).function_catalogue@)) ==> {
                &&& name_set(pairs_view(final(workspace).library_functions@)).disjoint(
                    name_set(pairs_view(final(workspace).unclassified_functions@)),
                )
                &&& name_set(pairs_view(final(workspace).library_functions@)).union(
                    name_set(pairs_view(final(workspace).unclassified_functions@)),
                ) == name_set(pairs_view(old(workspace).function_catalogue@))
            },
    {
        let entries = signature_match_entries(&self.signatures, sample.as_slice());
        let (lib, rem) = classify_matches(&workspace.function_catalogue, &entries);
        proof {
            if distinct_names(pairs_view(workspace.function_catalogue@)) {
                lemma_classification_partition(
                    pairs_view(workspace.function_catalogue@),
                    entries_view(entries@),
                );
            }
        }
        workspace.library_functions = lib;
        workspace.unclassified_functions = rem;
    }
}

} // verus!
