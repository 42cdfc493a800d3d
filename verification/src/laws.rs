//! The library's cross-cutting guarantees, stated and proved as public
//! lemmas over the same specification functions the executable contracts
//! use.

use vstd::prelude::*;

use crate::aggregate::entries_upto;
use crate::aggregate::entry_for;
use crate::aggregate::insert_entry;
use crate::aggregate::names_upto;
use crate::aggregate::sort_entries;
use crate::aggregate::spec_entries;
use crate::aggregate::spec_pairs;
use crate::aggregate::versions_for_upto;
use crate::chars::lemma_lex_total;
use crate::chars::lemma_lex_transitive;
use crate::chars::lex_leq;
use crate::package::EntryModel;
use crate::package::entry_leq;
use crate::package::lemma_status_classification;
use crate::package::spec_status;
use crate::chars::all_above_space;
use crate::chars::spec_decimal;
use crate::version::collapse_from;
use crate::version::insert_sorted;
use crate::version::lemma_run_len_bounds;
use crate::version::run_len_at;
use crate::version::sort_versions;
use crate::version::spec_deduplicate;
use crate::version::with_count;

verus! {

/// Every entry stands in the report order next to its neighbour: status
/// rank first, name second.
pub open spec fn entries_ordered(s: Seq<EntryModel>) -> bool {
    forall|i: int| 0 <= i < s.len() - 1 ==> entry_leq(#[trigger] s[i], s[i + 1])
}

proof fn lemma_entry_leq_total(a: EntryModel, b: EntryModel)
    ensures
        entry_leq(a, b) || entry_leq(b, a),
{
    if a.status.rank() == b.status.rank() {
        lemma_lex_total(a.name, b.name);
    }
}

proof fn lemma_entry_leq_trans(a: EntryModel, b: EntryModel, c: EntryModel)
    requires
        entry_leq(a, b),
        entry_leq(b, c),
    ensures
        entry_leq(a, c),
{
    if a.status.rank() == b.status.rank() && b.status.rank() == c.status.rank() {
        lemma_lex_transitive(a.name, b.name, c.name);
    }
}

proof fn lemma_insert_entry_ordered(s: Seq<EntryModel>, e: EntryModel)
    requires
        entries_ordered(s),
    ensures
        entries_ordered(insert_entry(s, e)),
    decreases s.len(),
{
    if s.len() == 0 {
    } else if entry_leq(s[0], e) {
        let tail = s.drop_first();
        assert forall|i: int| 0 <= i < tail.len() - 1 implies entry_leq(
            #[trigger] tail[i],
            tail[i + 1],
        ) by {
            assert(tail[i] == s[i + 1]);
            assert(tail[i + 1] == s[i + 2]);
        }
        lemma_insert_entry_ordered(tail, e);
        let t = insert_entry(tail, e);
        let r = insert_entry(s, e);
        assert(r =~= seq![s[0]] + t);
        assert(entry_leq(s[0], t[0])) by {
            if tail.len() == 0 {
                assert(t[0] == e);
            } else if entry_leq(tail[0], e) {
                assert(t[0] == tail[0]);
                assert(tail[0] == s[1]);
                assert(entry_leq(s[0], s[1]));
            } else {
                assert(t[0] == e);
            }
        }
        assert forall|i: int| 0 <= i < r.len() - 1 implies entry_leq(
            #[trigger] r[i],
            r[i + 1],
        ) by {
            if i == 0 {
                assert(r[0] == s[0] && r[1] == t[0]);
            } else {
                assert(r[i] == t[i - 1] && r[i + 1] == t[i]);
                assert(entry_leq(t[i - 1], t[i]));
            }
        }
    } else {
        lemma_entry_leq_total(s[0], e);
        let r = insert_entry(s, e);
        assert(r =~= seq![e] + s);
        assert forall|i: int| 0 <= i < r.len() - 1 implies entry_leq(
            #[trigger] r[i],
            r[i + 1],
        ) by {
            if i == 0 {
                assert(r[0] == e && r[1] == s[0]);
            } else {
                assert(r[i] == s[i - 1] && r[i + 1] == s[i]);
                assert(entry_leq(s[i - 1], s[i]));
            }
        }
    }
}

proof fn lemma_sort_entries_ordered(s: Seq<EntryModel>)
    ensures
        entries_ordered(sort_entries(s)),
    decreases s.len(),
{
    if s.len() > 0 {
        lemma_sort_entries_ordered(s.drop_last());
        lemma_insert_entry_ordered(sort_entries(s.drop_last()), s.last());
    }
}

proof fn lemma_entries_chain(s: Seq<EntryModel>, i: int, j: int)
    requires
        entries_ordered(s),
        0 <= i < j < s.len(),
    ensures
        entry_leq(s[i], s[j]),
    decreases j - i,
{
    if i + 1 == j {
    } else {
        lemma_entries_chain(s, i, j - 1);
        lemma_entry_leq_trans(s[i], s[j - 1], s[j]);
    }
}

proof fn lemma_insert_entry_at_end(s: Seq<EntryModel>, e: EntryModel)
    requires
        forall|j: int| 0 <= j < s.len() ==> entry_leq(#[trigger] s[j], e),
    ensures
        insert_entry(s, e) =~= s.push(e),
    decreases s.len(),
{
    if s.len() > 0 {
        assert(entry_leq(s[0], e));
        lemma_insert_entry_at_end(s.drop_first(), e);
        assert(insert_entry(s, e) =~= seq![s[0]] + s.drop_first().push(e));
    }
}

proof fn lemma_sort_of_ordered(s: Seq<EntryModel>)
    requires
        entries_ordered(s),
    ensures
        sort_entries(s) == s,
    decreases s.len(),
{
    if s.len() == 0 {
        assert(sort_entries(s) =~= s);
    } else {
        let p = s.drop_last();
        assert forall|i: int| 0 <= i < p.len() - 1 implies entry_leq(
            #[trigger] p[i],
            p[i + 1],
        ) by {
            assert(p[i] == s[i]);
            assert(p[i + 1] == s[i + 1]);
        }
        lemma_sort_of_ordered(p);
        assert forall|j: int| 0 <= j < p.len() implies entry_leq(#[trigger] p[j], s.last()) by {
            assert(p[j] == s[j]);
            lemma_entries_chain(s, j, s.len() - 1);
        }
        lemma_insert_entry_at_end(p, s.last());
        assert(sort_entries(s) =~= p.push(s.last()));
        assert(p.push(s.last()) =~= s);
    }
}

/// Output ordering: the report entries stand grouped added, then removed,
/// then changed, each group ordered by name, and sorting them again by that
/// order changes nothing.
pub proof fn lemma_report_ordering(old_paths: Seq<Seq<char>>, new_paths: Seq<Seq<char>>)
    ensures
        entries_ordered(spec_entries(old_paths, new_paths)),
        sort_entries(spec_entries(old_paths, new_paths)) == spec_entries(old_paths, new_paths),
{
    let op = spec_pairs(old_paths);
    let np = spec_pairs(new_paths);
    let names = names_upto(op + np, (op + np).len() as int);
    let unsorted = entries_upto(names, op, np, names.len() as int);
    assert(spec_entries(old_paths, new_paths) == sort_entries(unsorted));
    lemma_sort_entries_ordered(unsorted);
    lemma_sort_of_ordered(spec_entries(old_paths, new_paths));
}

proof fn lemma_entry_concat_contains(a: Seq<EntryModel>, b: Seq<EntryModel>, x: EntryModel)
    ensures
        (a + b).contains(x) <==> a.contains(x) || b.contains(x),
{
    if a.contains(x) {
        let i = choose|i: int| 0 <= i < a.len() && a[i] == x;
        assert((a + b)[i] == x);
    }
    if b.contains(x) {
        let i = choose|i: int| 0 <= i < b.len() && b[i] == x;
        assert((a + b)[a.len() + i] == x);
    }
    if (a + b).contains(x) {
        let i = choose|i: int| 0 <= i < (a + b).len() && (a + b)[i] == x;
        if i < a.len() {
            assert(a[i] == x);
        } else {
            assert(b[i - a.len()] == x);
        }
    }
}

proof fn lemma_insert_entry_contains(s: Seq<EntryModel>, e: EntryModel, x: EntryModel)
    ensures
        insert_entry(s, e).contains(x) <==> s.contains(x) || x == e,
    decreases s.len(),
{
    if s.len() == 0 {
        assert(insert_entry(s, e)[0] == e);
        if insert_entry(s, e).contains(x) {
            let i = choose|i: int| 0 <= i < insert_entry(s, e).len() && insert_entry(s, e)[i] == x;
            assert(i == 0);
        }
    } else if entry_leq(s[0], e) {
        lemma_insert_entry_contains(s.drop_first(), e, x);
        lemma_entry_concat_contains(seq![s[0]], insert_entry(s.drop_first(), e), x);
        lemma_entry_concat_contains(seq![s[0]], s.drop_first(), x);
        assert(s =~= seq![s[0]] + s.drop_first());
        assert(seq![s[0]].contains(x) <==> x == s[0]) by {
            if seq![s[0]].contains(x) {
                let i = choose|i: int| 0 <= i < 1 && seq![s[0]][i] == x;
                assert(i == 0);
            }
            if x == s[0] {
                assert(seq![s[0]][0] == x);
            }
        }
    } else {
        lemma_entry_concat_contains(seq![e], s, x);
        assert(insert_entry(s, e) =~= seq![e] + s);
        assert(seq![e].contains(x) <==> x == e) by {
            if seq![e].contains(x) {
                let i = choose|i: int| 0 <= i < 1 && seq![e][i] == x;
                assert(i == 0);
            }
            if x == e {
                assert(seq![e][0] == x);
            }
        }
    }
}

proof fn lemma_sort_entries_contains(s: Seq<EntryModel>, x: EntryModel)
    ensures
        sort_entries(s).contains(x) <==> s.contains(x),
    decreases s.len(),
{
    if s.len() > 0 {
        lemma_sort_entries_contains(s.drop_last(), x);
        lemma_insert_entry_contains(sort_entries(s.drop_last()), s.last(), x);
        lemma_entry_concat_contains(s.drop_last(), seq![s.last()], x);
        assert(s =~= s.drop_last() + seq![s.last()]);
        assert(seq![s.last()].contains(x) <==> x == s.last()) by {
            if seq![s.last()].contains(x) {
                let i = choose|i: int| 0 <= i < 1 && seq![s.last()][i] == x;
                assert(i == 0);
            }
            if x == s.last() {
                assert(seq![s.last()][0] == x);
            }
        }
    }
}

proof fn lemma_entries_upto_member(
    names: Seq<Seq<char>>,
    op: Seq<(Seq<char>, Seq<char>)>,
    np: Seq<(Seq<char>, Seq<char>)>,
    n: int,
    x: EntryModel,
)
    requires
        entries_upto(names, op, np, n).contains(x),
    ensures
        x.old != x.new,
        x.status == spec_status(x.old, x.new)->Some_0,
        spec_status(x.old, x.new) is Some,
    decreases n,
{
    if n <= 0 {
        assert(false);
    } else {
        let prefix = entries_upto(names, op, np, n - 1);
        let step = match entry_for(names[n - 1], op, np) {
            Some(e) => seq![e],
            None => Seq::<EntryModel>::empty(),
        };
        lemma_entry_concat_contains(prefix, step, x);
        if prefix.contains(x) {
            lemma_entries_upto_member(names, op, np, n - 1, x);
        } else {
            let od = spec_deduplicate(versions_for_upto(op, names[n - 1], op.len() as int));
            let nd = spec_deduplicate(versions_for_upto(np, names[n - 1], np.len() as int));
            assert(spec_status(od, nd) is Some);
            let i = choose|i: int| 0 <= i < step.len() && step[i] == x;
            assert(x == entry_for(names[n - 1], op, np)->Some_0);
            lemma_status_classification(od, nd);
        }
    }
}

/// A package whose deduplicated version lists are equal on both sides never
/// appears among the report entries, so it is never rendered; and every
/// entry that does appear carries the status its version lists classify to:
/// added exactly when only the new side has versions, removed exactly when
/// only the old side has, changed exactly when both have and they differ.
pub proof fn lemma_unchanged_absent(
    old_paths: Seq<Seq<char>>,
    new_paths: Seq<Seq<char>>,
    x: EntryModel,
)
    requires
        spec_entries(old_paths, new_paths).contains(x),
    ensures
        x.old != x.new,
        spec_status(x.old, x.new) == Some(x.status),
{
    let op = spec_pairs(old_paths);
    let np = spec_pairs(new_paths);
    let names = names_upto(op + np, (op + np).len() as int);
    let unsorted = entries_upto(names, op, np, names.len() as int);
    lemma_sort_entries_contains(unsorted, x);
    lemma_entries_upto_member(names, op, np, names.len() as int, x);
}

/// Adjacent versions of a list are in lexicographic order.
pub open spec fn versions_ordered(s: Seq<Seq<char>>) -> bool {
    forall|i: int| 0 <= i < s.len() - 1 ==> lex_leq(#[trigger] s[i], s[i + 1])
}

/// Adjacent versions of a list are in strictly ascending order.
pub open spec fn versions_strict(s: Seq<Seq<char>>) -> bool {
    forall|i: int|
        0 <= i < s.len() - 1 ==> lex_leq(#[trigger] s[i], s[i + 1]) && s[i] != s[i + 1]
}

/// Every version of the list has only characters above the space character.
pub open spec fn all_versions_above(s: Seq<Seq<char>>) -> bool {
    forall|i: int| 0 <= i < s.len() ==> all_above_space(#[trigger] s[i])
}

proof fn lemma_insert_sorted_ordered(s: Seq<Seq<char>>, v: Seq<char>)
    requires
        versions_ordered(s),
    ensures
        versions_ordered(insert_sorted(s, v)),
    decreases s.len(),
{
    if s.len() == 0 {
    } else if lex_leq(s[0], v) {
        let tail = s.drop_first();
        assert forall|i: int| 0 <= i < tail.len() - 1 implies lex_leq(
            #[trigger] tail[i],
            tail[i + 1],
        ) by {
            assert(tail[i] == s[i + 1]);
            assert(tail[i + 1] == s[i + 2]);
        }
        lemma_insert_sorted_ordered(tail, v);
        let t = insert_sorted(tail, v);
        let r = insert_sorted(s, v);
        assert(r =~= seq![s[0]] + t);
        assert(lex_leq(s[0], t[0])) by {
            if tail.len() == 0 {
                assert(t[0] == v);
            } else if lex_leq(tail[0], v) {
                assert(t[0] == tail[0]);
                assert(tail[0] == s[1]);
                assert(lex_leq(s[0], s[1]));
            } else {
                assert(t[0] == v);
            }
        }
        assert forall|i: int| 0 <= i < r.len() - 1 implies lex_leq(#[trigger] r[i], r[i + 1]) by {
            if i == 0 {
                assert(r[0] == s[0] && r[1] == t[0]);
            } else {
                assert(r[i] == t[i - 1] && r[i + 1] == t[i]);
                assert(lex_leq(t[i - 1], t[i]));
            }
        }
    } else {
        lemma_lex_total(s[0], v);
        let r = insert_sorted(s, v);
        assert(r =~= seq![v] + s);
        assert forall|i: int| 0 <= i < r.len() - 1 implies lex_leq(#[trigger] r[i], r[i + 1]) by {
            if i == 0 {
                assert(r[0] == v && r[1] == s[0]);
            } else {
                assert(r[i] == s[i - 1] && r[i + 1] == s[i]);
                assert(lex_leq(s[i - 1], s[i]));
            }
        }
    }
}

proof fn lemma_sort_versions_ordered(s: Seq<Seq<char>>)
    ensures
        versions_ordered(sort_versions(s)),
    decreases s.len(),
{
    if s.len() > 0 {
        lemma_sort_versions_ordered(s.drop_last());
        lemma_insert_sorted_ordered(sort_versions(s.drop_last()), s.last());
    }
}

proof fn lemma_versions_chain(s: Seq<Seq<char>>, i: int, j: int)
    requires
        versions_ordered(s),
        0 <= i < j < s.len(),
    ensures
        lex_leq(s[i], s[j]),
    decreases j - i,
{
    if i + 1 == j {
    } else {
        lemma_versions_chain(s, i, j - 1);
        lemma_lex_transitive(s[i], s[j - 1], s[j]);
    }
}

proof fn lemma_version_concat_contains(a: Seq<Seq<char>>, b: Seq<Seq<char>>, x: Seq<char>)
    ensures
        (a + b).contains(x) <==> a.contains(x) || b.contains(x),
{
    if a.contains(x) {
        let i = choose|i: int| 0 <= i < a.len() && a[i] == x;
        assert((a + b)[i] == x);
    }
    if b.contains(x) {
        let i = choose|i: int| 0 <= i < b.len() && b[i] == x;
        assert((a + b)[a.len() + i] == x);
    }
    if (a + b).contains(x) {
        let i = choose|i: int| 0 <= i < (a + b).len() && (a + b)[i] == x;
        if i < a.len() {
            assert(a[i] == x);
        } else {
            assert(b[i - a.len()] == x);
        }
    }
}

proof fn lemma_insert_sorted_contains(s: Seq<Seq<char>>, v: Seq<char>, x: Seq<char>)
    ensures
        insert_sorted(s, v).contains(x) <==> s.contains(x) || x == v,
    decreases s.len(),
{
    if s.len() == 0 {
        assert(insert_sorted(s, v)[0] == v);
        if insert_sorted(s, v).contains(x) {
            let i = choose|i: int| 0 <= i < insert_sorted(s, v).len() && insert_sorted(s, v)[i]
                == x;
            assert(i == 0);
        }
    } else if lex_leq(s[0], v) {
        lemma_insert_sorted_contains(s.drop_first(), v, x);
        lemma_version_concat_contains(seq![s[0]], insert_sorted(s.drop_first(), v), x);
        lemma_version_concat_contains(seq![s[0]], s.drop_first(), x);
        assert(s =~= seq![s[0]] + s.drop_first());
        assert(seq![s[0]].contains(x) <==> x == s[0]) by {
            if seq![s[0]].contains(x) {
                let i = choose|i: int| 0 <= i < 1 && seq![s[0]][i] == x;
                assert(i == 0);
            }
            if x == s[0] {
                assert(seq![s[0]][0] == x);
            }
        }
    } else {
        lemma_version_concat_contains(seq![v], s, x);
        assert(insert_sorted(s, v) =~= seq![v] + s);
        assert(seq![v].contains(x) <==> x == v) by {
            if seq![v].contains(x) {
                let i = choose|i: int| 0 <= i < 1 && seq![v][i] == x;
                assert(i == 0);
            }
            if x == v {
                assert(seq![v][0] == x);
            }
        }
    }
}

proof fn lemma_sort_versions_contains(s: Seq<Seq<char>>, x: Seq<char>)
    ensures
        sort_versions(s).contains(x) <==> s.contains(x),
    decreases s.len(),
{
    if s.len() > 0 {
        lemma_sort_versions_contains(s.drop_last(), x);
        lemma_insert_sorted_contains(sort_versions(s.drop_last()), s.last(), x);
        lemma_version_concat_contains(s.drop_last(), seq![s.last()], x);
        assert(s =~= s.drop_last() + seq![s.last()]);
        assert(seq![s.last()].contains(x) <==> x == s.last()) by {
            if seq![s.last()].contains(x) {
                let i = choose|i: int| 0 <= i < 1 && seq![s.last()][i] == x;
                assert(i == 0);
            }
            if x == s.last() {
                assert(seq![s.last()][0] == x);
            }
        }
    }
}

/// Appending a count suffix, which starts below every version character,
/// keeps a strict lexicographic order strict.
proof fn lemma_appended_still_less(a: Seq<char>, b: Seq<char>, sa: Seq<char>, sb: Seq<char>)
    requires
        lex_leq(a, b),
        a != b,
        all_above_space(a),
        all_above_space(b),
        sa.len() == 0 || sa[0] == ' ',
        sb.len() == 0 || sb[0] == ' ',
    ensures
        lex_leq(a + sa, b + sb),
        a + sa != b + sb,
    decreases a.len(),
{
    if a.len() == 0 {
        assert(b.len() > 0) by {
            if b.len() == 0 {
                assert(a =~= b);
            }
        }
        if sa.len() == 0 {
            assert((a + sa).len() == 0);
            assert((b + sb).len() > 0);
        } else {
            assert((a + sa)[0] == sa[0]);
            assert((b + sb)[0] == b[0]);
            assert(b[0] as int > 32);
            assert(sa[0] as int == 32);
            assert((a + sa)[0] != (b + sb)[0]);
            assert(((a + sa)[0] as int) < ((b + sb)[0] as int));
        }
    } else {
        assert(b.len() > 0);
        if a[0] != b[0] {
            assert((a + sa)[0] == a[0] && (b + sb)[0] == b[0]);
            assert((a[0] as int) < (b[0] as int));
        } else {
            let a2 = a.drop_first();
            let b2 = b.drop_first();
            assert(a2 != b2) by {
                if a2 == b2 {
                    assert(a =~= seq![a[0]] + a2);
                    assert(b =~= seq![b[0]] + b2);
                    assert(a =~= b);
                }
            }
            assert(all_above_space(a2)) by {
                assert(forall|i: int| 0 <= i < a2.len() ==> (#[trigger] a2[i]) == a[i + 1]);
            }
            assert(all_above_space(b2)) by {
                assert(forall|i: int| 0 <= i < b2.len() ==> (#[trigger] b2[i]) == b[i + 1]);
            }
            assert(lex_leq(a2, b2));
            lemma_appended_still_less(a2, b2, sa, sb);
            assert((a + sa).drop_first() =~= a2 + sa);
            assert((b + sb).drop_first() =~= b2 + sb);
            assert((a + sa)[0] == (b + sb)[0]);
            assert(lex_leq(a + sa, b + sb));
            assert(a + sa != b + sb) by {
                if a + sa == b + sb {
                    assert((a + sa).drop_first() == (b + sb).drop_first());
                }
            }
        }
    }
}

proof fn lemma_with_count_less(a: Seq<char>, b: Seq<char>, ca: nat, cb: nat)
    requires
        lex_leq(a, b),
        a != b,
        all_above_space(a),
        all_above_space(b),
    ensures
        lex_leq(with_count(a, ca), with_count(b, cb)),
        with_count(a, ca) != with_count(b, cb),
{
    let sa = if ca > 1 {
        seq![' ', '*', ' '] + spec_decimal(ca)
    } else {
        Seq::<char>::empty()
    };
    let sb = if cb > 1 {
        seq![' ', '*', ' '] + spec_decimal(cb)
    } else {
        Seq::<char>::empty()
    };
    assert(with_count(a, ca) =~= a + sa);
    assert(with_count(b, cb) =~= b + sb);
    lemma_appended_still_less(a, b, sa, sb);
}

proof fn lemma_collapse_strict(s: Seq<Seq<char>>, i: int)
    requires
        0 <= i <= s.len(),
        versions_ordered(s),
        all_versions_above(s),
    ensures
        versions_strict(collapse_from(s, i)),
        i < s.len() ==> collapse_from(s, i).len() > 0 && collapse_from(s, i)[0] == with_count(
            s[i],
            run_len_at(s, i) as nat,
        ),
    decreases s.len() - i,
{
    if i < s.len() {
        lemma_run_len_bounds(s, i);
        let k = run_len_at(s, i);
        lemma_collapse_strict(s, i + k);
        let c = collapse_from(s, i);
        let rest = collapse_from(s, i + k);
        let head = with_count(s[i], k as nat);
        assert(c =~= seq![head] + rest);
        if i + k < s.len() {
            assert(rest[0] == with_count(s[i + k], run_len_at(s, i + k) as nat));
            lemma_versions_chain(s, i, i + k);
            assert(s[i + k] != s[i]);
            lemma_with_count_less(s[i], s[i + k], k as nat, run_len_at(s, i + k) as nat);
        }
        assert forall|j: int| 0 <= j < c.len() - 1 implies lex_leq(#[trigger] c[j], c[j + 1])
            && c[j] != c[j + 1] by {
            if j == 0 {
                assert(c[0] == head && c[1] == rest[0]);
            } else {
                assert(c[j] == rest[j - 1] && c[j + 1] == rest[j]);
                assert(lex_leq(rest[j - 1], rest[j]) && rest[j - 1] != rest[j]);
            }
        }
    }
}

proof fn lemma_insert_version_at_end(s: Seq<Seq<char>>, v: Seq<char>)
    requires
        forall|j: int| 0 <= j < s.len() ==> lex_leq(#[trigger] s[j], v),
    ensures
        insert_sorted(s, v) =~= s.push(v),
    decreases s.len(),
{
    if s.len() > 0 {
        assert(lex_leq(s[0], v));
        lemma_insert_version_at_end(s.drop_first(), v);
        assert(insert_sorted(s, v) =~= seq![s[0]] + s.drop_first().push(v));
    }
}

proof fn lemma_sort_of_ordered_versions(s: Seq<Seq<char>>)
    requires
        versions_ordered(s),
    ensures
        sort_versions(s) == s,
    decreases s.len(),
{
    if s.len() == 0 {
        assert(sort_versions(s) =~= s);
    } else {
        let p = s.drop_last();
        assert forall|i: int| 0 <= i < p.len() - 1 implies lex_leq(#[trigger] p[i], p[i + 1]) by {
            assert(p[i] == s[i]);
            assert(p[i + 1] == s[i + 1]);
        }
        lemma_sort_of_ordered_versions(p);
        assert forall|j: int| 0 <= j < p.len() implies lex_leq(#[trigger] p[j], s.last()) by {
            assert(p[j] == s[j]);
            lemma_versions_chain(s, j, s.len() - 1);
        }
        lemma_insert_version_at_end(p, s.last());
        assert(sort_versions(s) =~= p.push(s.last()));
        assert(p.push(s.last()) =~= s);
    }
}

proof fn lemma_collapse_identity(s: Seq<Seq<char>>, i: int)
    requires
        0 <= i <= s.len(),
        versions_strict(s),
    ensures
        collapse_from(s, i) == s.skip(i),
    decreases s.len() - i,
{
    if i < s.len() {
        assert(run_len_at(s, i) == 1);
        lemma_collapse_identity(s, i + 1);
        assert(with_count(s[i], 1nat) == s[i]);
        assert(collapse_from(s, i) =~= seq![s[i]] + s.skip(i + 1));
        assert(seq![s[i]] + s.skip(i + 1) =~= s.skip(i));
    } else {
        assert(collapse_from(s, i) =~= s.skip(i));
    }
}

/// Deduplication is idempotent: deduplicating a deduplicated version list
/// changes nothing, for version lists whose characters all stand above the
/// space character.
pub proof fn lemma_deduplicate_idempotent(l: Seq<Seq<char>>)
    requires
        forall|i: int| 0 <= i < l.len() ==> all_above_space(#[trigger] l[i]),
    ensures
        spec_deduplicate(spec_deduplicate(l)) == spec_deduplicate(l),
{
    let s = sort_versions(l);
    lemma_sort_versions_ordered(l);
    assert(all_versions_above(s)) by {
        assert forall|i: int| 0 <= i < s.len() implies all_above_space(#[trigger] s[i]) by {
            assert(s.contains(s[i]));
            lemma_sort_versions_contains(l, s[i]);
            let j = choose|j: int| 0 <= j < l.len() && l[j] == s[i];
            assert(all_above_space(l[j]));
        }
    }
    lemma_collapse_strict(s, 0);
    let d = collapse_from(s, 0);
    assert(d == spec_deduplicate(l));
    assert(versions_ordered(d)) by {
        assert(forall|i: int| 0 <= i < d.len() - 1 ==> lex_leq(#[trigger] d[i], d[i + 1]));
    }
    lemma_sort_of_ordered_versions(d);
    lemma_collapse_identity(d, 0);
    assert(d.skip(0) =~= d);
}

/// How many entries of the list carry this name.
pub open spec fn name_count(s: Seq<EntryModel>, nm: Seq<char>) -> int
    decreases s.len(),
{
    if s.len() == 0 {
        0
    } else {
        (if s[0].name == nm {
            1int
        } else {
            0int
        }) + name_count(s.drop_first(), nm)
    }
}

proof fn lemma_name_count_concat(a: Seq<EntryModel>, b: Seq<EntryModel>, nm: Seq<char>)
    ensures
        name_count(a + b, nm) == name_count(a, nm) + name_count(b, nm),
    decreases a.len(),
{
    if a.len() == 0 {
        assert(a + b =~= b);
    } else {
        assert((a + b).drop_first() =~= a.drop_first() + b);
        lemma_name_count_concat(a.drop_first(), b, nm);
    }
}

proof fn lemma_name_count_singleton(e: EntryModel, nm: Seq<char>)
    ensures
        name_count(seq![e], nm) == if e.name == nm {
            1int
        } else {
            0int
        },
{
    assert(seq![e].len() == 1);
    assert(seq![e][0] == e);
    assert(seq![e].drop_first() =~= Seq::<EntryModel>::empty());
    assert(name_count(Seq::<EntryModel>::empty(), nm) == 0);
    assert(name_count(seq![e].drop_first(), nm) == 0);
}

proof fn lemma_insert_entry_name_count(s: Seq<EntryModel>, e: EntryModel, nm: Seq<char>)
    ensures
        name_count(insert_entry(s, e), nm) == name_count(s, nm) + (if e.name == nm {
            1int
        } else {
            0int
        }),
    decreases s.len(),
{
    if s.len() == 0 {
        assert(insert_entry(s, e) =~= seq![e]);
        lemma_name_count_singleton(e, nm);
    } else if entry_leq(s[0], e) {
        lemma_insert_entry_name_count(s.drop_first(), e, nm);
        assert(insert_entry(s, e) =~= seq![s[0]] + insert_entry(s.drop_first(), e));
        lemma_name_count_concat(seq![s[0]], insert_entry(s.drop_first(), e), nm);
        lemma_name_count_singleton(s[0], nm);
        lemma_name_count_concat(seq![s[0]], s.drop_first(), nm);
        assert(s =~= seq![s[0]] + s.drop_first());
    } else {
        assert(insert_entry(s, e) =~= seq![e] + s);
        lemma_name_count_concat(seq![e], s, nm);
        lemma_name_count_singleton(e, nm);
    }
}

proof fn lemma_sort_entries_name_count(s: Seq<EntryModel>, nm: Seq<char>)
    ensures
        name_count(sort_entries(s), nm) == name_count(s, nm),
    decreases s.len(),
{
    if s.len() > 0 {
        lemma_sort_entries_name_count(s.drop_last(), nm);
        lemma_insert_entry_name_count(sort_entries(s.drop_last()), s.last(), nm);
        assert(s =~= s.drop_last() + seq![s.last()]);
        lemma_name_count_concat(s.drop_last(), seq![s.last()], nm);
        lemma_name_count_singleton(s.last(), nm);
    }
}

proof fn lemma_name_count_one_index(s: Seq<EntryModel>, i: int, nm: Seq<char>)
    requires
        0 <= i < s.len(),
        s[i].name == nm,
    ensures
        name_count(s, nm) >= 1,
    decreases s.len(),
{
    if i > 0 {
        lemma_name_count_one_index(s.drop_first(), i - 1, nm);
    } else {
        lemma_name_count_nonnegative(s.drop_first(), nm);
    }
}

proof fn lemma_name_count_nonnegative(s: Seq<EntryModel>, nm: Seq<char>)
    ensures
        name_count(s, nm) >= 0,
    decreases s.len(),
{
    if s.len() > 0 {
        lemma_name_count_nonnegative(s.drop_first(), nm);
    }
}

proof fn lemma_name_count_two_indexes(s: Seq<EntryModel>, i: int, j: int, nm: Seq<char>)
    requires
        0 <= i < j < s.len(),
        s[i].name == nm,
        s[j].name == nm,
    ensures
        name_count(s, nm) >= 2,
    decreases s.len(),
{
    if i == 0 {
        lemma_name_count_one_index(s.drop_first(), j - 1, nm);
    } else {
        lemma_name_count_two_indexes(s.drop_first(), i - 1, j - 1, nm);
    }
}

proof fn lemma_names_upto_distinct(pairs: Seq<(Seq<char>, Seq<char>)>, n: int)
    ensures
        forall|i: int, j: int|
            0 <= i < j < names_upto(pairs, n).len() ==> names_upto(pairs, n)[i] != names_upto(
                pairs,
                n,
            )[j],
    decreases n,
{
    if n > 0 {
        lemma_names_upto_distinct(pairs, n - 1);
        let p = names_upto(pairs, n - 1);
        let q = names_upto(pairs, n);
        if !p.contains(pairs[n - 1].0) {
            assert forall|i: int, j: int| 0 <= i < j < q.len() implies q[i] != q[j] by {
                if j < p.len() {
                    assert(q[i] == p[i] && q[j] == p[j]);
                } else {
                    assert(q[j] == pairs[n - 1].0);
                    assert(q[i] == p[i]);
                    assert(!p.contains(pairs[n - 1].0));
                    assert(p[i] != pairs[n - 1].0);
                }
            }
        }
    }
}

proof fn lemma_entries_upto_name_count(
    names: Seq<Seq<char>>,
    op: Seq<(Seq<char>, Seq<char>)>,
    np: Seq<(Seq<char>, Seq<char>)>,
    n: int,
    nm: Seq<char>,
)
    requires
        0 <= n <= names.len(),
        forall|i: int, j: int| 0 <= i < j < names.len() ==> names[i] != names[j],
    ensures
        name_count(entries_upto(names, op, np, n), nm) <= 1,
        !names.take(n).contains(nm) ==> name_count(entries_upto(names, op, np, n), nm) == 0,
    decreases n,
{
    if n > 0 {
        lemma_entries_upto_name_count(names, op, np, n - 1, nm);
        let prefix = entries_upto(names, op, np, n - 1);
        let step = match entry_for(names[n - 1], op, np) {
            Some(e) => seq![e],
            None => Seq::<EntryModel>::empty(),
        };
        lemma_name_count_concat(prefix, step, nm);
        assert(name_count(step, nm) == if step.len() > 0 && names[n - 1] == nm {
            1int
        } else {
            0int
        }) by {
            if step.len() > 0 {
                lemma_name_count_singleton(step[0], nm);
                assert(step =~= seq![step[0]]);
                assert(step[0].name == names[n - 1]);
            }
        }
        lemma_name_count_nonnegative(prefix, nm);
        if step.len() > 0 && names[n - 1] == nm {
            assert(!names.take(n - 1).contains(nm)) by {
                if names.take(n - 1).contains(nm) {
                    let i = choose|i: int|
                        0 <= i < names.take(n - 1).len() && #[trigger] names.take(n - 1)[i] == nm;
                    assert(names[i] == nm && names[n - 1] == nm);
                }
            }
            assert(name_count(prefix, nm) == 0);
        }
        if !names.take(n).contains(nm) {
            assert(!names.take(n - 1).contains(nm)) by {
                if names.take(n - 1).contains(nm) {
                    let i = choose|i: int|
                        0 <= i < names.take(n - 1).len() && #[trigger] names.take(n - 1)[i] == nm;
                    assert(names.take(n)[i] == nm);
                }
            }
            assert(names[n - 1] != nm) by {
                assert(names.take(n)[n - 1] == names[n - 1]);
            }
        }
    }
}

/// A package never appears twice in one report: the entries carry pairwise
/// distinct names.
pub proof fn lemma_names_unique(old_paths: Seq<Seq<char>>, new_paths: Seq<Seq<char>>)
    ensures
        forall|i: int, j: int|
            0 <= i < j < spec_entries(old_paths, new_paths).len() ==> spec_entries(
                old_paths,
                new_paths,
            )[i].name != spec_entries(old_paths, new_paths)[j].name,
{
    let op = spec_pairs(old_paths);
    let np = spec_pairs(new_paths);
    let names = names_upto(op + np, (op + np).len() as int);
    let unsorted = entries_upto(names, op, np, names.len() as int);
    let sorted = spec_entries(old_paths, new_paths);
    lemma_names_upto_distinct(op + np, (op + np).len() as int);
    assert forall|i: int, j: int| 0 <= i < j < sorted.len() implies sorted[i].name
        != sorted[j].name by {
        if sorted[i].name == sorted[j].name {
            let nm = sorted[i].name;
            lemma_name_count_two_indexes(sorted, i, j, nm);
            lemma_sort_entries_name_count(unsorted, nm);
            lemma_entries_upto_name_count(names, op, np, names.len() as int, nm);
        }
    }
}

} // verus!
