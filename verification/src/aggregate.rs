//! Package aggregator: parses every identifier of both snapshots, groups the
//! versions by package name, deduplicates each side, classifies each package,
//! and orders the result for the report.

use vstd::prelude::*;
use vstd::string::StringExecFns;

use crate::chars::str_eq;
use crate::package::EntryModel;
use crate::package::PackageDiffEntry;
use crate::package::classify;
use crate::package::entries_view;
use crate::package::entry_leq;
use crate::package::entry_leq_exec;
use crate::package::spec_status;
use crate::parse::parse_name_and_version;
use crate::parse::spec_name;
use crate::parse::spec_parse_ok;
use crate::parse::spec_version;
use crate::version::deduplicate_versions;
use crate::version::spec_deduplicate;
use crate::version::version_views;

verus! {

/// The sentinel recorded when an identifier has no version suffix.
pub open spec fn none_version() -> Seq<char> {
    seq!['<', 'n', 'o', 'n', 'e', '>']
}

/// The sentinel as a string.
pub fn none_version_string() -> (s: String)
    ensures
        s@ == none_version(),
{
    let s = String::from_str("<none>");
    proof {
        reveal_strlit("<none>");
        assert(s@ =~= none_version());
    }
    s
}

/// The name and version a parsable identifier contributes, the version
/// replaced by the sentinel when absent.
pub open spec fn pair_of(p: Seq<char>) -> (Seq<char>, Seq<char>) {
    (
        spec_name(p),
        match spec_version(p) {
            Some(v) => v,
            None => none_version(),
        },
    )
}

/// The (name, version) pairs of the first `n` identifiers, unparsable ones
/// skipped.
pub open spec fn pairs_upto(paths: Seq<Seq<char>>, n: int) -> Seq<(Seq<char>, Seq<char>)>
    decreases n,
{
    if n <= 0 {
        Seq::empty()
    } else {
        pairs_upto(paths, n - 1) + if spec_parse_ok(paths[n - 1]) {
            seq![pair_of(paths[n - 1])]
        } else {
            Seq::empty()
        }
    }
}

/// The (name, version) pairs of a snapshot.
pub open spec fn spec_pairs(paths: Seq<Seq<char>>) -> Seq<(Seq<char>, Seq<char>)> {
    pairs_upto(paths, paths.len() as int)
}

/// The distinct names of the first `n` pairs, in order of first appearance.
pub open spec fn names_upto(pairs: Seq<(Seq<char>, Seq<char>)>, n: int) -> Seq<Seq<char>>
    decreases n,
{
    if n <= 0 {
        Seq::empty()
    } else {
        let p = names_upto(pairs, n - 1);
        if p.contains(pairs[n - 1].0) {
            p
        } else {
            p.push(pairs[n - 1].0)
        }
    }
}

/// The versions the first `n` pairs list for `name`, in order.
pub open spec fn versions_for_upto(
    pairs: Seq<(Seq<char>, Seq<char>)>,
    name: Seq<char>,
    n: int,
) -> Seq<Seq<char>>
    decreases n,
{
    if n <= 0 {
        Seq::empty()
    } else {
        let p = versions_for_upto(pairs, name, n - 1);
        if pairs[n - 1].0 == name {
            p.push(pairs[n - 1].1)
        } else {
            p
        }
    }
}

proof fn lemma_names_upto_push(pairs: Seq<(Seq<char>, Seq<char>)>, x: (Seq<char>, Seq<char>), n: int)
    requires
        n <= pairs.len(),
    ensures
        names_upto(pairs.push(x), n) == names_upto(pairs, n),
    decreases n,
{
    if n > 0 {
        lemma_names_upto_push(pairs, x, n - 1);
    }
}

proof fn lemma_versions_upto_push(
    pairs: Seq<(Seq<char>, Seq<char>)>,
    x: (Seq<char>, Seq<char>),
    name: Seq<char>,
    n: int,
)
    requires
        n <= pairs.len(),
    ensures
        versions_for_upto(pairs.push(x), name, n) == versions_for_upto(pairs, name, n),
    decreases n,
{
    if n > 0 {
        lemma_versions_upto_push(pairs, x, name, n - 1);
    }
}

/// Whether some string of the vector holds these characters.
fn contains_str(v: &Vec<String>, s: &str) -> (r: bool)
    ensures
        r == version_views(v@).contains(s@),
{
    let mut i: usize = 0;
    while i < v.len()
        invariant
            i <= v@.len(),
            forall|j: int| 0 <= j < i ==> version_views(v@)[j] != s@,
        decreases v@.len() - i,
    {
        if str_eq(v[i].as_str(), s) {
            proof {
                assert(version_views(v@)[i as int] == s@);
            }
            return true;
        }
        i = i + 1;
    }
    proof {
        assert(forall|j: int|
            0 <= j < version_views(v@).len() ==> #[trigger] version_views(v@)[j] != s@);
    }
    false
}

/// The distinct package names of both snapshots, old side first, each in
/// order of first appearance.
fn collect_names(paths_old: &Vec<String>, paths_new: &Vec<String>) -> (names: Vec<String>)
    ensures
        ({
            let all = spec_pairs(version_views(paths_old@)) + spec_pairs(
                version_views(paths_new@),
            );
            version_views(names@) == names_upto(all, all.len() as int)
        }),
{
    let ghost oldv = version_views(paths_old@);
    let ghost newv = version_views(paths_new@);
    let mut names: Vec<String> = Vec::new();
    let mut i: usize = 0;
    while i < paths_old.len()
        invariant
            i <= paths_old@.len(),
            oldv == version_views(paths_old@),
            oldv.len() == paths_old@.len(),
            version_views(names@) == names_upto(
                pairs_upto(oldv, i as int),
                pairs_upto(oldv, i as int).len() as int,
            ),
        decreases paths_old@.len() - i,
    {
        let ghost before = pairs_upto(oldv, i as int);
        match parse_name_and_version(paths_old[i].as_str()) {
            Ok((nm, _)) => {
                proof {
                    assert(pairs_upto(oldv, i + 1) =~= before.push(pair_of(oldv[i as int])));
                    lemma_names_upto_push(before, pair_of(oldv[i as int]), before.len() as int);
                    assert(nm@ == pair_of(oldv[i as int]).0);
                }
                if !contains_str(&names, nm) {
                    let owned = String::from_str(nm);
                    let ghost prior = version_views(names@);
                    names.push(owned);
                    proof {
                        assert(version_views(names@) =~= prior.push(nm@));
                    }
                }
            },
            Err(_) => {
                proof {
                    assert(pairs_upto(oldv, i + 1) =~= before);
                }
            },
        }
        i = i + 1;
    }
    let ghost op = spec_pairs(oldv);
    let mut k: usize = 0;
    proof {
        assert(op + pairs_upto(newv, 0) =~= op);
        assert(names_upto(op + pairs_upto(newv, 0), (op + pairs_upto(newv, 0)).len() as int)
            == names_upto(op, op.len() as int));
    }
    while k < paths_new.len()
        invariant
            k <= paths_new@.len(),
            newv == version_views(paths_new@),
            newv.len() == paths_new@.len(),
            op == spec_pairs(version_views(paths_old@)),
            version_views(names@) == names_upto(
                op + pairs_upto(newv, k as int),
                (op + pairs_upto(newv, k as int)).len() as int,
            ),
        decreases paths_new@.len() - k,
    {
        let ghost before = op + pairs_upto(newv, k as int);
        match parse_name_and_version(paths_new[k].as_str()) {
            Ok((nm, _)) => {
                proof {
                    assert(pairs_upto(newv, k + 1) =~= pairs_upto(newv, k as int).push(
                        pair_of(newv[k as int]),
                    ));
                    assert(op + pairs_upto(newv, k + 1) =~= before.push(pair_of(newv[k as int])));
                    lemma_names_upto_push(before, pair_of(newv[k as int]), before.len() as int);
                    assert(nm@ == pair_of(newv[k as int]).0);
                }
                if !contains_str(&names, nm) {
                    let owned = String::from_str(nm);
                    let ghost prior = version_views(names@);
                    names.push(owned);
                    proof {
                        assert(version_views(names@) =~= prior.push(nm@));
                    }
                }
            },
            Err(_) => {
                proof {
                    assert(pairs_upto(newv, k + 1) =~= pairs_upto(newv, k as int));
                    assert(op + pairs_upto(newv, k + 1) =~= before);
                }
            },
        }
        k = k + 1;
    }
    names
}

/// The versions one snapshot lists for `name`, in order.
fn collect_versions(paths: &Vec<String>, name: &String) -> (versions: Vec<String>)
    ensures
        ({
            let pairs = spec_pairs(version_views(paths@));
            version_views(versions@) == versions_for_upto(pairs, name@, pairs.len() as int)
        }),
{
    let ghost pv = version_views(paths@);
    let mut versions: Vec<String> = Vec::new();
    let mut i: usize = 0;
    while i < paths.len()
        invariant
            i <= paths@.len(),
            pv == version_views(paths@),
            pv.len() == paths@.len(),
            version_views(versions@) == versions_for_upto(
                pairs_upto(pv, i as int),
                name@,
                pairs_upto(pv, i as int).len() as int,
            ),
        decreases paths@.len() - i,
    {
        let ghost before = pairs_upto(pv, i as int);
        match parse_name_and_version(paths[i].as_str()) {
            Ok((nm, ver)) => {
                proof {
                    assert(pairs_upto(pv, i + 1) =~= before.push(pair_of(pv[i as int])));
                    lemma_versions_upto_push(
                        before,
                        pair_of(pv[i as int]),
                        name@,
                        before.len() as int,
                    );
                }
                if str_eq(nm, name.as_str()) {
                    let owned = match ver {
                        Some(v) => String::from_str(v),
                        None => none_version_string(),
                    };
                    let ghost prior = version_views(versions@);
                    proof {
                        assert(owned@ == pair_of(pv[i as int]).1);
                    }
                    versions.push(owned);
                    proof {
                        assert(version_views(versions@) =~= prior.push(pair_of(pv[i as int]).1));
                    }
                } else {
                    proof {
                        assert(pair_of(pv[i as int]).0 != name@);
                    }
                }
            },
            Err(_) => {
                proof {
                    assert(pairs_upto(pv, i + 1) =~= before);
                }
            },
        }
        i = i + 1;
    }
    versions
}

/// The report entry of one package, or nothing when the package does not
/// belong in the report.
pub open spec fn entry_for(
    name: Seq<char>,
    old_pairs: Seq<(Seq<char>, Seq<char>)>,
    new_pairs: Seq<(Seq<char>, Seq<char>)>,
) -> Option<EntryModel> {
    let od = spec_deduplicate(versions_for_upto(old_pairs, name, old_pairs.len() as int));
    let nd = spec_deduplicate(versions_for_upto(new_pairs, name, new_pairs.len() as int));
    match spec_status(od, nd) {
        Some(st) => Some(EntryModel { name, old: od, new: nd, status: st }),
        None => None,
    }
}

/// The unsorted report entries of the first `n` names.
pub open spec fn entries_upto(
    names: Seq<Seq<char>>,
    old_pairs: Seq<(Seq<char>, Seq<char>)>,
    new_pairs: Seq<(Seq<char>, Seq<char>)>,
    n: int,
) -> Seq<EntryModel>
    decreases n,
{
    if n <= 0 {
        Seq::empty()
    } else {
        entries_upto(names, old_pairs, new_pairs, n - 1) + match entry_for(
            names[n - 1],
            old_pairs,
            new_pairs,
        ) {
            Some(e) => seq![e],
            None => Seq::empty(),
        }
    }
}

/// Inserts an entry after every entry that compares less than or equal to
/// it in the report order.
pub open spec fn insert_entry(s: Seq<EntryModel>, e: EntryModel) -> Seq<EntryModel>
    decreases s.len(),
{
    if s.len() == 0 {
        seq![e]
    } else if entry_leq(s[0], e) {
        seq![s[0]] + insert_entry(s.drop_first(), e)
    } else {
        seq![e] + s
    }
}

/// Insertion sort of the report entries, processing entries left to right.
pub open spec fn sort_entries(s: Seq<EntryModel>) -> Seq<EntryModel>
    decreases s.len(),
{
    if s.len() == 0 {
        Seq::empty()
    } else {
        insert_entry(sort_entries(s.drop_last()), s.last())
    }
}

/// The classified, ordered report entries of two snapshots.
pub open spec fn spec_entries(old_paths: Seq<Seq<char>>, new_paths: Seq<Seq<char>>) -> Seq<
    EntryModel,
> {
    let op = spec_pairs(old_paths);
    let np = spec_pairs(new_paths);
    let names = names_upto(op + np, (op + np).len() as int);
    sort_entries(entries_upto(names, op, np, names.len() as int))
}

proof fn lemma_insert_entry_at(s: Seq<EntryModel>, e: EntryModel, k: int)
    requires
        0 <= k <= s.len(),
        forall|j: int| 0 <= j < k ==> entry_leq(#[trigger] s[j], e),
        k < s.len() ==> !entry_leq(s[k], e),
    ensures
        insert_entry(s, e) =~= s.take(k) + seq![e] + s.skip(k),
    decreases k,
{
    if k == 0 {
        assert(insert_entry(s, e) =~= s.take(0) + seq![e] + s.skip(0));
    } else {
        assert(entry_leq(s[0], e));
        lemma_insert_entry_at(s.drop_first(), e, k - 1);
        assert(s.drop_first().take(k - 1) =~= s.subrange(1, k));
        assert(s.drop_first().skip(k - 1) =~= s.skip(k));
        assert(seq![s[0]] + (s.subrange(1, k) + seq![e] + s.skip(k)) =~= s.take(k) + seq![e]
            + s.skip(k));
    }
}

/// Inserts one entry into a vector whose views are sorted, keeping the
/// insertion-sort shape.
fn insert_entry_exec(r: &mut Vec<PackageDiffEntry>, e: PackageDiffEntry)
    ensures
        entries_view(final(r)@) == insert_entry(entries_view(old(r)@), e@),
{
    let ghost rv = entries_view(r@);
    let mut k: usize = 0;
    while k < r.len() && entry_leq_exec(&r[k], &e)
        invariant
            k <= r@.len(),
            rv == entries_view(r@),
            rv.len() == r@.len(),
            forall|j: int| 0 <= j < k ==> entry_leq(#[trigger] rv[j], e@),
        decreases r@.len() - k,
    {
        k = k + 1;
    }
    proof {
        lemma_insert_entry_at(rv, e@, k as int);
    }
    let ghost ev = e@;
    r.insert(k, e);
    proof {
        assert(entries_view(r@) =~= rv.take(k as int) + seq![ev] + rv.skip(k as int));
    }
}

/// Parses, groups, deduplicates, classifies and orders the packages of two
/// snapshots into the report entries.
pub fn aggregate_entries(paths_old: &Vec<String>, paths_new: &Vec<String>) -> (entries: Vec<
    PackageDiffEntry,
>)
    ensures
        entries_view(entries@) == spec_entries(version_views(paths_old@), version_views(paths_new@)),
{
    let ghost op = spec_pairs(version_views(paths_old@));
    let ghost np = spec_pairs(version_views(paths_new@));
    let names = collect_names(paths_old, paths_new);
    let ghost namesv = version_views(names@);
    let mut entries: Vec<PackageDiffEntry> = Vec::new();
    let mut i: usize = 0;
    while i < names.len()
        invariant
            i <= names@.len(),
            namesv == version_views(names@),
            namesv.len() == names@.len(),
            op == spec_pairs(version_views(paths_old@)),
            np == spec_pairs(version_views(paths_new@)),
            entries_view(entries@) == entries_upto(namesv, op, np, i as int),
        decreases names@.len() - i,
    {
        let mut od = collect_versions(paths_old, &names[i]);
        deduplicate_versions(&mut od);
        let mut nd = collect_versions(paths_new, &names[i]);
        deduplicate_versions(&mut nd);
        let ghost prior = entries_view(entries@);
        match classify(&od, &nd) {
            Some(status) => {
                let entry = PackageDiffEntry { name: names[i].clone(), old: od, new: nd, status };
                let ghost ev = entry@;
                proof {
                    assert(entry_for(namesv[i as int], op, np) == Some(ev));
                }
                entries.push(entry);
                proof {
                    assert(entries_view(entries@) =~= prior.push(ev));
                    assert(entries_upto(namesv, op, np, i + 1) =~= prior.push(ev));
                }
            },
            None => {
                proof {
                    assert(entry_for(namesv[i as int], op, np) is None);
                    assert(entries_upto(namesv, op, np, i + 1) =~= prior);
                }
            },
        }
        i = i + 1;
    }
    let ghost unsorted = entries_view(entries@);
    proof {
        assert(unsorted == entries_upto(namesv, op, np, namesv.len() as int));
    }
    let mut sorted: Vec<PackageDiffEntry> = Vec::new();
    let ghost total = unsorted.len() as int;
    let initial: usize = entries.len();
    let mut taken: usize = 0;
    proof {
        assert(unsorted.take(0) =~= Seq::<EntryModel>::empty());
    }
    while entries.len() > 0
        invariant
            taken + entries@.len() == total,
            total == unsorted.len(),
            total == initial as int,
            taken <= initial,
            entries_view(entries@) == unsorted.skip(taken as int),
            entries_view(sorted@) == sort_entries(unsorted.take(taken as int)),
        decreases entries@.len(),
    {
        let ghost pre = entries@;
        let e = entries.remove(0);
        proof {
            assert(e == pre[0]);
            assert(entries_view(pre)[0] == pre[0]@);
            assert(e@ == unsorted[taken as int]);
            assert(entries_view(entries@) =~= entries_view(pre).drop_first());
            assert(entries_view(entries@) =~= unsorted.skip(taken + 1));
            assert(unsorted.take(taken + 1).drop_last() =~= unsorted.take(taken as int));
            assert(unsorted.take(taken + 1).last() == unsorted[taken as int]);
        }
        insert_entry_exec(&mut sorted, e);
        taken = taken + 1;
    }
    proof {
        assert(unsorted.take(taken as int) =~= unsorted);
    }
    sorted
}

} // verus!
