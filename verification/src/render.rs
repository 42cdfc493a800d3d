//! Diff renderer: orders, column-aligns and writes the textual report as a
//! sequence of role-tagged spans, delegating sub-token coloring to the
//! version differ.

use vstd::prelude::*;
use vstd::string::StrSliceExecFns;
use vstd::string::StringExecFns;

use crate::aggregate::aggregate_entries;
use crate::chars::push_char;
use crate::aggregate::spec_entries;
use crate::package::DiffStatus;
use crate::package::EntryModel;
use crate::package::PackageDiffEntry;
use crate::package::entries_view;
use crate::span::Role;
use crate::span::Span;
use crate::span::SpanModel;
use crate::span::push_span;
use crate::span::spans_view;
use crate::version::DiffTag;
use crate::version::TaggedToken;
use crate::version::TaggedTokenModel;
use crate::version::TokenKind;
use crate::version::TokenModel;
use crate::version::tokens_view;
use crate::version::align_tokens;
use crate::version::spec_align;
use crate::version::spec_tokenize;
use crate::version::string_eq;
use crate::version::tagged_view;
use crate::version::tokenize;
use crate::version::version_views;

verus! {

/// The displayed column count of a string. It depends on the characters
/// alone; no short formula gives it, so it stands as a name that the width
/// wrapper's contract applies.
pub uninterp spec fn display_width(s: Seq<char>) -> nat;

/// Relies on `unicode_width::UnicodeWidthStr::width`: the displayed column
/// count of a string, a function of its characters alone.
#[verifier::external_body]
fn str_width(s: &str) -> (w: usize)
    ensures
        w as nat == display_width(s@),
{
    unicode_width::UnicodeWidthStr::width(s)
}

/// The widest displayed name among the first `n` entries.
pub open spec fn max_name_width(entries: Seq<EntryModel>, n: int) -> nat
    decreases n,
{
    if n <= 0 {
        0
    } else {
        let rest = max_name_width(entries, n - 1);
        if display_width(entries[n - 1].name) > rest {
            display_width(entries[n - 1].name)
        } else {
            rest
        }
    }
}

/// The common column width: the widest displayed name of the report.
pub fn column_width(entries: &Vec<PackageDiffEntry>) -> (w: usize)
    ensures
        w as nat == max_name_width(entries_view(entries@), entries@.len() as int),
{
    let mut w: usize = 0;
    let mut i: usize = 0;
    while i < entries.len()
        invariant
            i <= entries@.len(),
            w as nat == max_name_width(entries_view(entries@), i as int),
        decreases entries@.len() - i,
    {
        let nw = str_width(entries[i].name.as_str());
        if nw > w {
            w = nw;
        }
        i = i + 1;
    }
    w
}

/// A name left-padded with spaces to the common column width.
pub open spec fn padded_name(name: Seq<char>, width: int) -> Seq<char> {
    if width > display_width(name) {
        name + Seq::new((width - display_width(name)) as nat, |i: int| ' ')
    } else {
        name
    }
}

/// Pads a name to the column width.
fn padded(name: &String, width: usize) -> (s: String)
    ensures
        s@ == padded_name(name@, width as int),
{
    let w = str_width(name.as_str());
    let mut s = name.clone();
    let mut k = w;
    while k < width
        invariant
            w <= k,
            w as nat == display_width(name@),
            k <= width || k == w,
            s@ =~= name@ + Seq::new((k - w) as nat, |i: int| ' '),
        decreases width - k,
    {
        push_char(&mut s, ' ');
        k = k + 1;
    }
    proof {
        if width > display_width(name@) {
            assert(s@ =~= padded_name(name@, width as int));
        } else {
            assert(s@ =~= name@);
        }
    }
    s
}

/// The role a token renders with on one side: literal tokens are never
/// styled, comparable ones carry their tag's role.
pub open spec fn role_for(kind: TokenKind, tag: DiffTag) -> Role {
    if kind == TokenKind::Literal {
        Role::Plain
    } else {
        match tag {
            DiffTag::Removed => Role::Removed,
            DiffTag::Added => Role::Added,
            DiffTag::Unchanged => Role::Unchanged,
        }
    }
}

/// The spans of the old side of an aligned token sequence: tokens tagged as
/// added belong to the new side only and are skipped.
pub open spec fn old_token_spans(ts: Seq<TaggedTokenModel>, i: int) -> Seq<SpanModel>
    decreases ts.len() - i,
    when 0 <= i
{
    if i >= ts.len() {
        Seq::empty()
    } else {
        (if ts[i].tag == DiffTag::Added {
            Seq::empty()
        } else {
            seq![SpanModel { text: ts[i].text, role: role_for(ts[i].kind, ts[i].tag) }]
        }) + old_token_spans(ts, i + 1)
    }
}

/// The spans of the new side of an aligned token sequence: tokens tagged as
/// removed belong to the old side only and are skipped.
pub open spec fn new_token_spans(ts: Seq<TaggedTokenModel>, i: int) -> Seq<SpanModel>
    decreases ts.len() - i,
    when 0 <= i
{
    if i >= ts.len() {
        Seq::empty()
    } else {
        (if ts[i].tag == DiffTag::Removed {
            Seq::empty()
        } else {
            seq![SpanModel { text: ts[i].text, role: role_for(ts[i].kind, ts[i].tag) }]
        }) + new_token_spans(ts, i + 1)
    }
}

fn append_old_token_spans(out: &mut Vec<Span>, ts: &Vec<TaggedToken>)
    ensures
        spans_view(final(out)@) == spans_view(old(out)@) + old_token_spans(tagged_view(ts@), 0),
{
    let ghost tv = tagged_view(ts@);
    let ghost base = spans_view(out@);
    let mut i: usize = 0;
    while i < ts.len()
        invariant
            i <= ts@.len(),
            tv == tagged_view(ts@),
            tv.len() == ts@.len(),
            base + old_token_spans(tv, 0) =~= spans_view(out@) + old_token_spans(tv, i as int),
        decreases ts@.len() - i,
    {
        let ghost prior = spans_view(out@);
        let is_added = ts[i].tag == DiffTag::Added;
        if !is_added {
            let role = if ts[i].kind == TokenKind::Literal {
                Role::Plain
            } else {
                match ts[i].tag {
                    DiffTag::Removed => Role::Removed,
                    DiffTag::Added => Role::Added,
                    DiffTag::Unchanged => Role::Unchanged,
                }
            };
            push_span(out, role, ts[i].text.clone());
            proof {
                assert(spans_view(out@) =~= prior.push(
                    SpanModel {
                        text: tv[i as int].text,
                        role: role_for(tv[i as int].kind, tv[i as int].tag),
                    },
                ));
            }
        }
        proof {
            assert(spans_view(out@) + old_token_spans(tv, i + 1) =~= prior + old_token_spans(
                tv,
                i as int,
            ));
        }
        i = i + 1;
    }
    proof {
        assert(old_token_spans(tv, i as int) =~= Seq::<SpanModel>::empty());
        assert(spans_view(out@) =~= spans_view(out@) + old_token_spans(tv, i as int));
    }
}

fn append_new_token_spans(out: &mut Vec<Span>, ts: &Vec<TaggedToken>)
    ensures
        spans_view(final(out)@) == spans_view(old(out)@) + new_token_spans(tagged_view(ts@), 0),
{
    let ghost tv = tagged_view(ts@);
    let ghost base = spans_view(out@);
    let mut i: usize = 0;
    while i < ts.len()
        invariant
            i <= ts@.len(),
            tv == tagged_view(ts@),
            tv.len() == ts@.len(),
            base + new_token_spans(tv, 0) =~= spans_view(out@) + new_token_spans(tv, i as int),
        decreases ts@.len() - i,
    {
        let ghost prior = spans_view(out@);
        let is_removed = ts[i].tag == DiffTag::Removed;
        if !is_removed {
            let role = if ts[i].kind == TokenKind::Literal {
                Role::Plain
            } else {
                match ts[i].tag {
                    DiffTag::Removed => Role::Removed,
                    DiffTag::Added => Role::Added,
                    DiffTag::Unchanged => Role::Unchanged,
                }
            };
            push_span(out, role, ts[i].text.clone());
            proof {
                assert(spans_view(out@) =~= prior.push(
                    SpanModel {
                        text: tv[i as int].text,
                        role: role_for(tv[i as int].kind, tv[i as int].tag),
                    },
                ));
            }
        }
        proof {
            assert(spans_view(out@) + new_token_spans(tv, i + 1) =~= prior + new_token_spans(
                tv,
                i as int,
            ));
        }
        i = i + 1;
    }
    proof {
        assert(new_token_spans(tv, i as int) =~= Seq::<SpanModel>::empty());
        assert(spans_view(out@) =~= spans_view(out@) + new_token_spans(tv, i as int));
    }
}

/// The separator before a version item: a leading space for the first item,
/// a comma for the following ones.
pub open spec fn sep_span(wrote: bool) -> SpanModel {
    SpanModel { text: if wrote { seq![',', ' '] } else { seq![' '] }, role: Role::Plain }
}

fn push_separator(out: &mut Vec<Span>, wrote: bool)
    ensures
        spans_view(final(out)@) == spans_view(old(out)@).push(sep_span(wrote)),
{
    if wrote {
        let t = String::from_str(", ");
        proof {
            reveal_strlit(", ");
            assert(t@ =~= seq![',', ' ']);
        }
        push_span(out, Role::Plain, t);
    } else {
        let t = String::from_str(" ");
        proof {
            reveal_strlit(" ");
            assert(t@ =~= seq![' ']);
        }
        push_span(out, Role::Plain, t);
    }
}

/// Whether position `i` renders an item on the old side: the old side has a
/// version there that the new side does not match.
pub open spec fn renders_old(old: Seq<Seq<char>>, new: Seq<Seq<char>>, i: int) -> bool {
    i < old.len() && (i >= new.len() || old[i] != new[i])
}

/// Whether position `i` renders an item on the new side.
pub open spec fn renders_new(old: Seq<Seq<char>>, new: Seq<Seq<char>>, i: int) -> bool {
    i < new.len() && (i >= old.len() || old[i] != new[i])
}

/// The aligned tokens of position `i`, the absent side tokenizing to
/// nothing.
pub open spec fn aligned_at(old: Seq<Seq<char>>, new: Seq<Seq<char>>, i: int) -> Seq<
    TaggedTokenModel,
> {
    spec_align(
        if i < old.len() {
            spec_tokenize(old[i])
        } else {
            Seq::empty()
        },
        if i < new.len() {
            spec_tokenize(new[i])
        } else {
            Seq::empty()
        },
    )
}

/// The larger of the two version list lengths.
pub open spec fn pair_count(old: Seq<Seq<char>>, new: Seq<Seq<char>>) -> int {
    if old.len() > new.len() {
        old.len() as int
    } else {
        new.len() as int
    }
}

/// The old-side spans of a version payload from position `i` on, `wrote`
/// saying whether an earlier item already stands on this side.
pub open spec fn old_side_from(old: Seq<Seq<char>>, new: Seq<Seq<char>>, i: int, wrote: bool) -> Seq<
    SpanModel,
>
    decreases pair_count(old, new) - i,
    when 0 <= i
{
    if i >= pair_count(old, new) {
        Seq::empty()
    } else if renders_old(old, new, i) {
        seq![sep_span(wrote)] + old_token_spans(aligned_at(old, new, i), 0) + old_side_from(
            old,
            new,
            i + 1,
            true,
        )
    } else {
        old_side_from(old, new, i + 1, wrote)
    }
}

/// The new-side spans of a version payload from position `i` on.
pub open spec fn new_side_from(old: Seq<Seq<char>>, new: Seq<Seq<char>>, i: int, wrote: bool) -> Seq<
    SpanModel,
>
    decreases pair_count(old, new) - i,
    when 0 <= i
{
    if i >= pair_count(old, new) {
        Seq::empty()
    } else if renders_new(old, new, i) {
        seq![sep_span(wrote)] + new_token_spans(aligned_at(old, new, i), 0) + new_side_from(
            old,
            new,
            i + 1,
            true,
        )
    } else {
        new_side_from(old, new, i + 1, wrote)
    }
}

/// The version payload of one entry: the old-side spans, an arrow when both
/// sides render something, then the new-side spans.
pub open spec fn payload_spans(old: Seq<Seq<char>>, new: Seq<Seq<char>>) -> Seq<SpanModel> {
    let o = old_side_from(old, new, 0, false);
    let n = new_side_from(old, new, 0, false);
    o + (if o.len() > 0 && n.len() > 0 {
        seq![SpanModel { text: seq![' ', '-', '>'], role: Role::Plain }]
    } else {
        Seq::empty()
    }) + n
}

fn append_old_side(out: &mut Vec<Span>, olds: &Vec<String>, news: &Vec<String>)
    ensures
        spans_view(final(out)@) == spans_view(old(out)@) + old_side_from(
            version_views(olds@),
            version_views(news@),
            0,
            false,
        ),
{
    let ghost ov = version_views(olds@);
    let ghost nv = version_views(news@);
    let ghost base = spans_view(out@);
    let mut i: usize = 0;
    let mut wrote = false;
    let count = if olds.len() > news.len() {
        olds.len()
    } else {
        news.len()
    };
    while i < count
        invariant
            i <= count,
            count == pair_count(ov, nv),
            ov == version_views(olds@),
            nv == version_views(news@),
            ov.len() == olds@.len(),
            nv.len() == news@.len(),
            base + old_side_from(ov, nv, 0, false) =~= spans_view(out@) + old_side_from(
                ov,
                nv,
                i as int,
                wrote,
            ),
        decreases count - i,
    {
        let ghost prior = spans_view(out@);
        let render = i < olds.len() && (i >= news.len() || !string_eq(&olds[i], &news[i]));
        if render {
            push_separator(out, wrote);
            let toks_old = tokenize(olds[i].as_str());
            let toks_new = if i < news.len() {
                tokenize(news[i].as_str())
            } else {
                Vec::new()
            };
            let tagged = align_tokens(&toks_old, &toks_new);
            proof {
                assert(ov[i as int] == olds@[i as int]@);
                assert(tokens_view(toks_old@) == spec_tokenize(ov[i as int]));
                if i < news@.len() {
                    assert(nv[i as int] == news@[i as int]@);
                    assert(tokens_view(toks_new@) == spec_tokenize(nv[i as int]));
                } else {
                    assert(tokens_view(toks_new@) =~= Seq::<TokenModel>::empty());
                }
                assert(tagged_view(tagged@) == aligned_at(ov, nv, i as int));
            }
            append_old_token_spans(out, &tagged);
            proof {
                assert(spans_view(out@) =~= prior + (seq![sep_span(wrote)] + old_token_spans(
                    aligned_at(ov, nv, i as int),
                    0,
                )));
                assert(spans_view(out@) + old_side_from(ov, nv, i + 1, true) =~= prior
                    + old_side_from(ov, nv, i as int, wrote));
            }
            wrote = true;
        } else {
            proof {
                assert(old_side_from(ov, nv, i + 1, wrote) == old_side_from(
                    ov,
                    nv,
                    i as int,
                    wrote,
                ));
            }
        }
        i = i + 1;
    }
    proof {
        assert(old_side_from(ov, nv, i as int, wrote) =~= Seq::<SpanModel>::empty());
        assert(spans_view(out@) =~= spans_view(out@) + old_side_from(ov, nv, i as int, wrote));
    }
}

fn append_new_side(out: &mut Vec<Span>, olds: &Vec<String>, news: &Vec<String>)
    ensures
        spans_view(final(out)@) == spans_view(old(out)@) + new_side_from(
            version_views(olds@),
            version_views(news@),
            0,
            false,
        ),
{
    let ghost ov = version_views(olds@);
    let ghost nv = version_views(news@);
    let ghost base = spans_view(out@);
    let mut i: usize = 0;
    let mut wrote = false;
    let count = if olds.len() > news.len() {
        olds.len()
    } else {
        news.len()
    };
    while i < count
        invariant
            i <= count,
            count == pair_count(ov, nv),
            ov == version_views(olds@),
            nv == version_views(news@),
            ov.len() == olds@.len(),
            nv.len() == news@.len(),
            base + new_side_from(ov, nv, 0, false) =~= spans_view(out@) + new_side_from(
                ov,
                nv,
                i as int,
                wrote,
            ),
        decreases count - i,
    {
        let ghost prior = spans_view(out@);
        let render = i < news.len() && (i >= olds.len() || !string_eq(&olds[i], &news[i]));
        if render {
            push_separator(out, wrote);
            let toks_old = if i < olds.len() {
                tokenize(olds[i].as_str())
            } else {
                Vec::new()
            };
            let toks_new = tokenize(news[i].as_str());
            let tagged = align_tokens(&toks_old, &toks_new);
            proof {
                assert(nv[i as int] == news@[i as int]@);
                assert(tokens_view(toks_new@) == spec_tokenize(nv[i as int]));
                if i < olds@.len() {
                    assert(ov[i as int] == olds@[i as int]@);
                    assert(tokens_view(toks_old@) == spec_tokenize(ov[i as int]));
                } else {
                    assert(tokens_view(toks_old@) =~= Seq::<TokenModel>::empty());
                }
                assert(tagged_view(tagged@) == aligned_at(ov, nv, i as int));
            }
            append_new_token_spans(out, &tagged);
            proof {
                assert(spans_view(out@) =~= prior + (seq![sep_span(wrote)] + new_token_spans(
                    aligned_at(ov, nv, i as int),
                    0,
                )));
                assert(spans_view(out@) + new_side_from(ov, nv, i + 1, true) =~= prior
                    + new_side_from(ov, nv, i as int, wrote));
            }
            wrote = true;
        } else {
            proof {
                assert(new_side_from(ov, nv, i + 1, wrote) == new_side_from(
                    ov,
                    nv,
                    i as int,
                    wrote,
                ));
            }
        }
        i = i + 1;
    }
    proof {
        assert(new_side_from(ov, nv, i as int, wrote) =~= Seq::<SpanModel>::empty());
        assert(spans_view(out@) =~= spans_view(out@) + new_side_from(ov, nv, i as int, wrote));
    }
}

fn append_payload(out: &mut Vec<Span>, olds: &Vec<String>, news: &Vec<String>)
    ensures
        spans_view(final(out)@) == spans_view(old(out)@) + payload_spans(
            version_views(olds@),
            version_views(news@),
        ),
{
    let ghost ov = version_views(olds@);
    let ghost nv = version_views(news@);
    let mut oldacc: Vec<Span> = Vec::new();
    append_old_side(&mut oldacc, olds, news);
    let mut newacc: Vec<Span> = Vec::new();
    append_new_side(&mut newacc, olds, news);
    let ghost base = spans_view(out@);
    let arrow = oldacc.len() > 0 && newacc.len() > 0;
    proof {
        assert(spans_view(oldacc@) =~= Seq::<SpanModel>::empty() + old_side_from(ov, nv, 0, false));
        assert(spans_view(newacc@) =~= Seq::<SpanModel>::empty() + new_side_from(ov, nv, 0, false));
        assert(spans_view(oldacc@).len() == oldacc@.len());
        assert(spans_view(newacc@).len() == newacc@.len());
    }
    let mut k: usize = 0;
    while k < oldacc.len()
        invariant
            k <= oldacc@.len(),
            spans_view(oldacc@) == old_side_from(ov, nv, 0, false),
            spans_view(out@) =~= base + spans_view(oldacc@).take(k as int),
        decreases oldacc@.len() - k,
    {
        let ghost prior = spans_view(out@);
        push_span(out, oldacc[k].role, oldacc[k].text.clone());
        proof {
            assert(spans_view(out@) =~= prior.push(spans_view(oldacc@)[k as int]));
            assert(spans_view(oldacc@).take(k + 1) =~= spans_view(oldacc@).take(k as int).push(
                spans_view(oldacc@)[k as int],
            ));
        }
        k = k + 1;
    }
    proof {
        assert(spans_view(oldacc@).take(oldacc@.len() as int) =~= spans_view(oldacc@));
    }
    if arrow {
        let t = String::from_str(" ->");
        proof {
            reveal_strlit(" ->");
            assert(t@ =~= seq![' ', '-', '>']);
        }
        push_span(out, Role::Plain, t);
    }
    let ghost mid = spans_view(out@);
    let mut m: usize = 0;
    while m < newacc.len()
        invariant
            m <= newacc@.len(),
            spans_view(newacc@) == new_side_from(ov, nv, 0, false),
            spans_view(out@) =~= mid + spans_view(newacc@).take(m as int),
        decreases newacc@.len() - m,
    {
        let ghost prior = spans_view(out@);
        push_span(out, newacc[m].role, newacc[m].text.clone());
        proof {
            assert(spans_view(out@) =~= prior.push(spans_view(newacc@)[m as int]));
            assert(spans_view(newacc@).take(m + 1) =~= spans_view(newacc@).take(m as int).push(
                spans_view(newacc@)[m as int],
            ));
        }
        m = m + 1;
    }
    proof {
        assert(spans_view(newacc@).take(newacc@.len() as int) =~= spans_view(newacc@));
        assert(spans_view(out@) =~= base + payload_spans(ov, nv));
    }
}

/// The newline span.
pub open spec fn newline_span() -> SpanModel {
    SpanModel { text: seq!['\n'], role: Role::Plain }
}

fn push_newline(out: &mut Vec<Span>)
    ensures
        spans_view(final(out)@) == spans_view(old(out)@).push(newline_span()),
{
    let mut t = String::new();
    push_char(&mut t, '\n');
    proof {
        assert(t@ =~= seq!['\n']);
    }
    push_span(out, Role::Plain, t);
}

/// The section header spans written when the status changes: a blank line
/// between sections, the section word, a line break.
pub open spec fn header_spans(status: DiffStatus, first: bool) -> Seq<SpanModel> {
    (if first {
        Seq::empty()
    } else {
        seq![newline_span()]
    }) + seq![SpanModel { text: status.word(), role: Role::Header }, newline_span()]
}

fn status_word(status: DiffStatus) -> (s: String)
    ensures
        s@ == status.word(),
{
    match status {
        DiffStatus::Added => {
            let s = String::from_str("ADDED");
            proof {
                reveal_strlit("ADDED");
                assert(s@ =~= status.word());
            }
            s
        },
        DiffStatus::Removed => {
            let s = String::from_str("REMOVED");
            proof {
                reveal_strlit("REMOVED");
                assert(s@ =~= status.word());
            }
            s
        },
        DiffStatus::Changed => {
            let s = String::from_str("CHANGED");
            proof {
                reveal_strlit("CHANGED");
                assert(s@ =~= status.word());
            }
            s
        },
    }
}

/// The spans of one entry line: the bracketed status letter, the padded
/// name, the version payload, a line break.
pub open spec fn line_spans(e: EntryModel, width: int) -> Seq<SpanModel> {
    seq![
        SpanModel { text: seq!['['], role: Role::Plain },
        SpanModel { text: seq![e.status.letter()], role: e.status.role() },
        SpanModel { text: seq![']', ' '], role: Role::Plain },
        SpanModel { text: padded_name(e.name, width), role: Role::Plain },
    ] + payload_spans(e.old, e.new) + seq![newline_span()]
}

/// The spans one entry contributes: its section header when its status
/// differs from the previous entry's, then its line.
pub open spec fn entry_spans(e: EntryModel, width: int, prev: Option<DiffStatus>) -> Seq<
    SpanModel,
> {
    (if prev != Some(e.status) {
        header_spans(e.status, prev is None)
    } else {
        Seq::empty()
    }) + line_spans(e, width)
}

fn append_entry(out: &mut Vec<Span>, e: &PackageDiffEntry, width: usize, Ghost(prev): Ghost<
    Option<DiffStatus>,
>, write_header: bool, first: bool)
    requires
        write_header == (prev != Some(e@.status)),
        first == (prev is None),
    ensures
        spans_view(final(out)@) == spans_view(old(out)@) + entry_spans(e@, width as int, prev),
{
    let ghost base = spans_view(out@);
    if write_header {
        if !first {
            push_newline(out);
        }
        push_span(out, Role::Header, status_word(e.status));
        push_newline(out);
        proof {
            assert(spans_view(out@) =~= base + header_spans(e@.status, prev is None));
        }
    }
    let ghost mid = spans_view(out@);
    let t = String::from_str("[");
    proof {
        reveal_strlit("[");
        assert(t@ =~= seq!['[']);
    }
    push_span(out, Role::Plain, t);
    let mut letter = String::new();
    push_char(&mut letter, e.status.char());
    proof {
        assert(letter@ =~= seq![e@.status.letter()]);
    }
    let role = match e.status {
        DiffStatus::Added => Role::Added,
        DiffStatus::Removed => Role::Removed,
        DiffStatus::Changed => Role::Unchanged,
    };
    push_span(out, role, letter);
    let t2 = String::from_str("] ");
    proof {
        reveal_strlit("] ");
        assert(t2@ =~= seq![']', ' ']);
    }
    push_span(out, Role::Plain, t2);
    push_span(out, Role::Plain, padded(&e.name, width));
    append_payload(out, &e.old, &e.new);
    push_newline(out);
    proof {
        assert(spans_view(out@) =~= mid + line_spans(e@, width as int));
        assert(spans_view(out@) =~= base + entry_spans(e@, width as int, prev));
    }
}

/// The status of the entry before entry `j`, if any.
pub open spec fn prev_status(entries: Seq<EntryModel>, j: int) -> Option<DiffStatus> {
    if j <= 0 {
        None
    } else {
        Some(entries[j - 1].status)
    }
}

/// The report spans of the first `n` entries.
pub open spec fn render_upto(entries: Seq<EntryModel>, width: int, n: int) -> Seq<SpanModel>
    decreases n,
{
    if n <= 0 {
        Seq::empty()
    } else {
        render_upto(entries, width, n - 1) + entry_spans(
            entries[n - 1],
            width,
            prev_status(entries, n - 1),
        )
    }
}

/// The full report of an ordered entry sequence at a column width.
pub open spec fn spec_render(entries: Seq<EntryModel>, width: int) -> Seq<SpanModel> {
    render_upto(entries, width, entries.len() as int)
}

/// The package diff report of two snapshots.
pub open spec fn spec_report(old_paths: Seq<Seq<char>>, new_paths: Seq<Seq<char>>) -> Seq<
    SpanModel,
> {
    let entries = spec_entries(old_paths, new_paths);
    spec_render(entries, max_name_width(entries, entries.len() as int) as int)
}

/// Writes the package diff of two identifier lists: parses, groups,
/// deduplicates, classifies, orders, and renders every package with a
/// difference. Returns the number of entries written; the report spans are
/// appended to `out`.
pub fn write_packages_diffln(out: &mut Vec<Span>, paths_old: &Vec<String>, paths_new: &Vec<
    String,
>) -> (count: usize)
    ensures
        spans_view(final(out)@) == spans_view(old(out)@) + spec_report(
            version_views(paths_old@),
            version_views(paths_new@),
        ),
        count == spec_entries(version_views(paths_old@), version_views(paths_new@)).len(),
{
    let entries = aggregate_entries(paths_old, paths_new);
    let width = column_width(&entries);
    let ghost ev = entries_view(entries@);
    let ghost base = spans_view(out@);
    let mut i: usize = 0;
    let mut last: Option<DiffStatus> = None;
    while i < entries.len()
        invariant
            i <= entries@.len(),
            ev == entries_view(entries@),
            ev.len() == entries@.len(),
            width as nat == max_name_width(ev, ev.len() as int),
            last == prev_status(ev, i as int),
            spans_view(out@) =~= base + render_upto(ev, width as int, i as int),
        decreases entries@.len() - i,
    {
        let ghost prior = spans_view(out@);
        let status = entries[i].status;
        let write_header = match last {
            Some(p) => p != status,
            None => true,
        };
        let first = match last {
            Some(_) => false,
            None => true,
        };
        append_entry(
            out,
            &entries[i],
            width,
            Ghost(prev_status(ev, i as int)),
            write_header,
            first,
        );
        last = Some(status);
        proof {
            assert(spans_view(out@) =~= prior + entry_spans(
                ev[i as int],
                width as int,
                prev_status(ev, i as int),
            ));
        }
        i = i + 1;
    }
    entries.len()
}

/// The report header naming the two snapshot roots.
pub open spec fn spec_paths_header(po: Seq<char>, pn: Seq<char>) -> Seq<SpanModel> {
    seq![
        SpanModel { text: seq!['<', '<', '<'], role: Role::Header },
        SpanModel { text: seq![' '] + po + seq!['\n'], role: Role::Plain },
        SpanModel { text: seq!['>', '>', '>'], role: Role::Header },
        SpanModel { text: seq![' '] + pn + seq!['\n'], role: Role::Plain },
        newline_span(),
    ]
}

/// Writes the diff header naming the old and new snapshot roots, then the
/// package diff of the two identifier lists. Returns the number of package
/// entries written; the header stands even when that number is zero.
pub fn write_paths_diffln(
    out: &mut Vec<Span>,
    path_old: &String,
    path_new: &String,
    paths_old: &Vec<String>,
    paths_new: &Vec<String>,
) -> (count: usize)
    ensures
        spans_view(final(out)@) == spans_view(old(out)@) + spec_paths_header(
            path_old@,
            path_new@,
        ) + spec_report(version_views(paths_old@), version_views(paths_new@)),
        count == spec_entries(version_views(paths_old@), version_views(paths_new@)).len(),
{
    let ghost base = spans_view(out@);
    let arrows_old = String::from_str("<<<");
    proof {
        reveal_strlit("<<<");
        assert(arrows_old@ =~= seq!['<', '<', '<']);
    }
    push_span(out, Role::Header, arrows_old);
    let mut t = String::from_str(" ");
    t.append(path_old.as_str());
    push_char(&mut t, '\n');
    proof {
        reveal_strlit(" ");
        assert(t@ =~= seq![' '] + path_old@ + seq!['\n']);
    }
    push_span(out, Role::Plain, t);
    let arrows_new = String::from_str(">>>");
    proof {
        reveal_strlit(">>>");
        assert(arrows_new@ =~= seq!['>', '>', '>']);
    }
    push_span(out, Role::Header, arrows_new);
    let mut t2 = String::from_str(" ");
    t2.append(path_new.as_str());
    push_char(&mut t2, '\n');
    proof {
        reveal_strlit(" ");
        assert(t2@ =~= seq![' '] + path_new@ + seq!['\n']);
    }
    push_span(out, Role::Plain, t2);
    push_newline(out);
    proof {
        assert(spans_view(out@) =~= base + spec_paths_header(path_old@, path_new@));
    }
    let count = write_packages_diffln(out, paths_old, paths_new);
    proof {
        assert(spans_view(out@) =~= base + spec_paths_header(path_old@, path_new@) + spec_report(
            version_views(paths_old@),
            version_views(paths_new@),
        ));
    }
    count
}

} // verus!
