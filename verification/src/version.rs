//! Version tokenizer and differ, and per-package version list deduplication.
//!
//! A version string is cut into maximal runs of one character class; digit
//! and word runs are comparable tokens, separator runs are literal tokens.
//! Two token sequences are aligned position by position, and a sorted version
//! list collapses consecutive duplicates into one entry with a count.

use vstd::prelude::*;
use vstd::string::StrSliceExecFns;
use vstd::string::StringExecFns;

use crate::chars::CharClass;
use crate::chars::char_class;
use crate::chars::class_of;
use crate::chars::lex_leq;
use crate::chars::push_char;
use crate::chars::spec_decimal;
use crate::chars::str_leq;
use crate::chars::usize_to_string;

verus! {

/// Whether a token takes part in comparisons or is copied through verbatim.
#[derive(Clone, Copy, Debug, PartialEq, Eq, Structural)]
pub enum TokenKind {
    Comparable,
    Literal,
}

/// One maximal run of same-class characters of a version string.
#[derive(Debug)]
pub struct Token {
    pub text: String,
    pub kind: TokenKind,
}

/// The mathematical value of a `Token`.
#[verifier::ext_equal]
pub struct TokenModel {
    pub text: Seq<char>,
    pub kind: TokenKind,
}

impl View for Token {
    type V = TokenModel;

    open spec fn view(&self) -> TokenModel {
        TokenModel { text: self.text@, kind: self.kind }
    }
}

pub open spec fn tokens_view(ts: Seq<Token>) -> Seq<TokenModel> {
    ts.map_values(|t: Token| t@)
}

pub open spec fn kind_of_class(k: CharClass) -> TokenKind {
    if k == CharClass::Separator {
        TokenKind::Literal
    } else {
        TokenKind::Comparable
    }
}

/// The end of the maximal run of the class of `s[i]` that starts at `i`.
pub open spec fn run_end(s: Seq<char>, i: int) -> int
    decreases s.len() - i,
{
    if i + 1 >= s.len() {
        s.len() as int
    } else if class_of(s[i + 1]) == class_of(s[i]) {
        run_end(s, i + 1)
    } else {
        i + 1
    }
}

pub proof fn lemma_run_end_bounds(s: Seq<char>, i: int)
    requires
        0 <= i < s.len(),
    ensures
        i < run_end(s, i) <= s.len(),
        forall|j: int| i <= j < run_end(s, i) ==> class_of(#[trigger] s[j]) == class_of(s[i]),
        run_end(s, i) == s.len() || class_of(s[run_end(s, i)]) != class_of(s[i]),
    decreases s.len() - i,
{
    if i + 1 >= s.len() {
    } else if class_of(s[i + 1]) == class_of(s[i]) {
        lemma_run_end_bounds(s, i + 1);
    }
}

proof fn lemma_run_end_is(s: Seq<char>, i: int, j: int)
    requires
        0 <= i < j <= s.len(),
        forall|k: int| i < k < j ==> class_of(#[trigger] s[k]) == class_of(s[i]),
        j == s.len() || class_of(s[j]) != class_of(s[i]),
    ensures
        run_end(s, i) == j,
    decreases j - i,
{
    if i + 1 == j {
    } else {
        lemma_run_end_is(s, i + 1, j);
    }
}

/// The token sequence of the version text from position `i` on.
pub open spec fn tokenize_from(s: Seq<char>, i: int) -> Seq<TokenModel>
    decreases s.len() - i,
    when 0 <= i
    via tokenize_from_decreases
{
    if i >= s.len() {
        Seq::empty()
    } else {
        seq![
            TokenModel { text: s.subrange(i, run_end(s, i)), kind: kind_of_class(class_of(s[i])) },
        ] + tokenize_from(s, run_end(s, i))
    }
}

#[via_fn]
proof fn tokenize_from_decreases(s: Seq<char>, i: int) {
    if 0 <= i < s.len() {
        lemma_run_end_bounds(s, i);
    }
}

/// The token sequence of one version text.
pub open spec fn spec_tokenize(s: Seq<char>) -> Seq<TokenModel> {
    tokenize_from(s, 0)
}

/// Splits a version string into its tokens.
pub fn tokenize(version: &str) -> (toks: Vec<Token>)
    ensures
        tokens_view(toks@) == spec_tokenize(version@),
{
    let len = version.unicode_len();
    let mut toks: Vec<Token> = Vec::new();
    let mut i: usize = 0;
    proof {
        assert(tokens_view(toks@) + tokenize_from(version@, 0) =~= spec_tokenize(version@));
    }
    while i < len
        invariant
            i <= len,
            len == version@.len(),
            tokens_view(toks@) + tokenize_from(version@, i as int) =~= spec_tokenize(version@),
        decreases len - i,
    {
        let c = version.get_char(i);
        let klass = char_class(c);
        let mut j: usize = i + 1;
        while j < len && char_class(version.get_char(j)) == klass
            invariant
                i < j <= len,
                len == version@.len(),
                klass == class_of(version@[i as int]),
                forall|k: int| i < k < j ==> class_of(#[trigger] version@[k]) == klass,
            decreases len - j,
        {
            j = j + 1;
        }
        proof {
            lemma_run_end_is(version@, i as int, j as int);
        }
        let text = String::from_str(version.substring_char(i, j));
        let is_sep = klass == CharClass::Separator;
        let tok = Token {
            text,
            kind: if is_sep {
                TokenKind::Literal
            } else {
                TokenKind::Comparable
            },
        };
        let ghost prior = toks@;
        let ghost tokm = tok@;
        toks.push(tok);
        proof {
            assert(tokens_view(toks@) =~= tokens_view(prior).push(tokm));
            assert(tokenize_from(version@, i as int) =~= seq![tokm] + tokenize_from(
                version@,
                j as int,
            ));
            assert(tokens_view(toks@) + tokenize_from(version@, j as int) =~= tokens_view(prior)
                + tokenize_from(version@, i as int));
        }
        i = j;
    }
    proof {
        assert(tokenize_from(version@, i as int) =~= Seq::<TokenModel>::empty());
        assert(tokens_view(toks@) =~= tokens_view(toks@) + tokenize_from(version@, i as int));
    }
    toks
}

/// How one aligned token relates the two sides.
#[derive(Clone, Copy, Debug, PartialEq, Eq, Structural)]
pub enum DiffTag {
    Unchanged,
    Removed,
    Added,
}

/// One token of an aligned version pair, tagged with its side.
#[derive(Debug)]
pub struct TaggedToken {
    pub text: String,
    pub kind: TokenKind,
    pub tag: DiffTag,
}

/// The mathematical value of a `TaggedToken`.
#[verifier::ext_equal]
pub struct TaggedTokenModel {
    pub text: Seq<char>,
    pub kind: TokenKind,
    pub tag: DiffTag,
}

impl View for TaggedToken {
    type V = TaggedTokenModel;

    open spec fn view(&self) -> TaggedTokenModel {
        TaggedTokenModel { text: self.text@, kind: self.kind, tag: self.tag }
    }
}

pub open spec fn tagged_view(ts: Seq<TaggedToken>) -> Seq<TaggedTokenModel> {
    ts.map_values(|t: TaggedToken| t@)
}

pub open spec fn tag_token(t: TokenModel, tag: DiffTag) -> TaggedTokenModel {
    TaggedTokenModel { text: t.text, kind: t.kind, tag }
}

/// The aligned tail of two token sequences from position `i` on: a token on
/// one side only keeps that side's tag; a pair with equal text collapses to
/// one unchanged token; a differing pair yields the old token as removed and
/// the new one as added.
pub open spec fn spec_align_from(old: Seq<TokenModel>, new: Seq<TokenModel>, i: int) -> Seq<
    TaggedTokenModel,
>
    decreases old.len() + new.len() - i,
    when 0 <= i
{
    if i >= old.len() && i >= new.len() {
        Seq::empty()
    } else {
        let step = if i < old.len() && i < new.len() {
            if old[i].text == new[i].text {
                seq![tag_token(old[i], DiffTag::Unchanged)]
            } else {
                seq![tag_token(old[i], DiffTag::Removed), tag_token(new[i], DiffTag::Added)]
            }
        } else if i < old.len() {
            seq![tag_token(old[i], DiffTag::Removed)]
        } else {
            seq![tag_token(new[i], DiffTag::Added)]
        };
        step + spec_align_from(old, new, i + 1)
    }
}

/// The positional alignment of two token sequences.
pub open spec fn spec_align(old: Seq<TokenModel>, new: Seq<TokenModel>) -> Seq<TaggedTokenModel> {
    spec_align_from(old, new, 0)
}

/// Aligns two token sequences position by position.
pub fn align_tokens(old: &Vec<Token>, new: &Vec<Token>) -> (r: Vec<TaggedToken>)
    ensures
        tagged_view(r@) == spec_align(tokens_view(old@), tokens_view(new@)),
{
    let ghost oldv = tokens_view(old@);
    let ghost newv = tokens_view(new@);
    let mut r: Vec<TaggedToken> = Vec::new();
    let mut i: usize = 0;
    proof {
        assert(tagged_view(r@) + spec_align_from(oldv, newv, 0) =~= spec_align(oldv, newv));
    }
    while i < old.len() || i < new.len()
        invariant
            oldv == tokens_view(old@),
            newv == tokens_view(new@),
            oldv.len() == old@.len(),
            newv.len() == new@.len(),
            tagged_view(r@) + spec_align_from(oldv, newv, i as int) =~= spec_align(oldv, newv),
        decreases old@.len() + new@.len() - i,
    {
        let ghost prior = r@;
        if i < old.len() && i < new.len() {
            if old[i].text == new[i].text {
                r.push(TaggedToken {
                    text: old[i].text.clone(),
                    kind: old[i].kind,
                    tag: DiffTag::Unchanged,
                });
                proof {
                    assert(tagged_view(r@) =~= tagged_view(prior).push(
                        tag_token(oldv[i as int], DiffTag::Unchanged),
                    ));
                }
            } else {
                r.push(TaggedToken {
                    text: old[i].text.clone(),
                    kind: old[i].kind,
                    tag: DiffTag::Removed,
                });
                r.push(TaggedToken {
                    text: new[i].text.clone(),
                    kind: new[i].kind,
                    tag: DiffTag::Added,
                });
                proof {
                    assert(tagged_view(r@) =~= tagged_view(prior).push(
                        tag_token(oldv[i as int], DiffTag::Removed),
                    ).push(tag_token(newv[i as int], DiffTag::Added)));
                }
            }
        } else if i < old.len() {
            r.push(TaggedToken {
                text: old[i].text.clone(),
                kind: old[i].kind,
                tag: DiffTag::Removed,
            });
            proof {
                assert(tagged_view(r@) =~= tagged_view(prior).push(
                    tag_token(oldv[i as int], DiffTag::Removed),
                ));
            }
        } else {
            r.push(TaggedToken {
                text: new[i].text.clone(),
                kind: new[i].kind,
                tag: DiffTag::Added,
            });
            proof {
                assert(tagged_view(r@) =~= tagged_view(prior).push(
                    tag_token(newv[i as int], DiffTag::Added),
                ));
            }
        }
        proof {
            assert(tagged_view(r@) + spec_align_from(oldv, newv, i + 1) =~= tagged_view(prior)
                + spec_align_from(oldv, newv, i as int));
        }
        i = i + 1;
    }
    proof {
        assert(tagged_view(r@) =~= tagged_view(r@) + spec_align_from(oldv, newv, i as int));
    }
    r
}

proof fn lemma_align_identical_from(toks: Seq<TokenModel>, i: int)
    requires
        0 <= i <= toks.len(),
    ensures
        spec_align_from(toks, toks, i).len() == toks.len() - i,
        forall|j: int|
            0 <= j < toks.len() - i ==> #[trigger] spec_align_from(toks, toks, i)[j] == tag_token(
                toks[i + j],
                DiffTag::Unchanged,
            ),
    decreases toks.len() - i,
{
    if i < toks.len() {
        lemma_align_identical_from(toks, i + 1);
    }
}

/// Aligning a token sequence with itself yields every token once, tagged
/// unchanged: identical version strings produce no differing tokens.
pub proof fn lemma_align_identical(toks: Seq<TokenModel>)
    ensures
        spec_align(toks, toks).len() == toks.len(),
        forall|j: int|
            0 <= j < toks.len() ==> #[trigger] spec_align(toks, toks)[j] == tag_token(
                toks[j],
                DiffTag::Unchanged,
            ),
        forall|j: int|
            0 <= j < spec_align(toks, toks).len() ==> #[trigger] spec_align(
                toks,
                toks,
            )[j].tag == DiffTag::Unchanged,
{
    lemma_align_identical_from(toks, 0);
}

/// The views of a version list.
pub open spec fn version_views(v: Seq<String>) -> Seq<Seq<char>> {
    v.map_values(|s: String| s@)
}

/// Whether two strings hold the same characters.
pub fn string_eq(a: &String, b: &String) -> (r: bool)
    ensures
        r == (a@ == b@),
{
    a.eq(b)
}

/// Inserts a version after every element that is less than or equal to it.
pub open spec fn insert_sorted(s: Seq<Seq<char>>, v: Seq<char>) -> Seq<Seq<char>>
    decreases s.len(),
{
    if s.len() == 0 {
        seq![v]
    } else if lex_leq(s[0], v) {
        seq![s[0]] + insert_sorted(s.drop_first(), v)
    } else {
        seq![v] + s
    }
}

/// Insertion sort of a version list, processing elements left to right.
pub open spec fn sort_versions(s: Seq<Seq<char>>) -> Seq<Seq<char>>
    decreases s.len(),
{
    if s.len() == 0 {
        Seq::empty()
    } else {
        insert_sorted(sort_versions(s.drop_last()), s.last())
    }
}

pub proof fn lemma_insert_sorted_len(s: Seq<Seq<char>>, v: Seq<char>)
    ensures
        insert_sorted(s, v).len() == s.len() + 1,
    decreases s.len(),
{
    if s.len() > 0 && lex_leq(s[0], v) {
        lemma_insert_sorted_len(s.drop_first(), v);
    }
}

pub proof fn lemma_sort_versions_len(s: Seq<Seq<char>>)
    ensures
        sort_versions(s).len() == s.len(),
    decreases s.len(),
{
    if s.len() > 0 {
        lemma_sort_versions_len(s.drop_last());
        lemma_insert_sorted_len(sort_versions(s.drop_last()), s.last());
    }
}

proof fn lemma_insert_sorted_at(s: Seq<Seq<char>>, v: Seq<char>, k: int)
    requires
        0 <= k <= s.len(),
        forall|j: int| 0 <= j < k ==> lex_leq(#[trigger] s[j], v),
        k < s.len() ==> !lex_leq(s[k], v),
    ensures
        insert_sorted(s, v) =~= s.take(k) + seq![v] + s.skip(k),
    decreases k,
{
    if k == 0 {
        if s.len() == 0 {
            assert(insert_sorted(s, v) =~= s.take(0) + seq![v] + s.skip(0));
        } else {
            assert(!lex_leq(s[0], v));
            assert(insert_sorted(s, v) =~= s.take(0) + seq![v] + s.skip(0));
        }
    } else {
        assert(lex_leq(s[0], v));
        lemma_insert_sorted_at(s.drop_first(), v, k - 1);
        assert(insert_sorted(s, v) =~= seq![s[0]] + insert_sorted(s.drop_first(), v));
        assert(s.drop_first().take(k - 1) =~= s.subrange(1, k));
        assert(s.drop_first().skip(k - 1) =~= s.skip(k));
        assert(seq![s[0]] + (s.subrange(1, k) + seq![v] + s.skip(k)) =~= s.take(k) + seq![v]
            + s.skip(k));
    }
}

/// Inserts one version into a vector whose views are sorted, keeping the
/// insertion-sort shape.
fn insert_version(r: &mut Vec<String>, v: String)
    ensures
        version_views(final(r)@) == insert_sorted(version_views(old(r)@), v@),
{
    let ghost rv = version_views(r@);
    let mut k: usize = 0;
    while k < r.len() && str_leq(r[k].as_str(), v.as_str())
        invariant
            k <= r@.len(),
            rv == version_views(r@),
            rv.len() == r@.len(),
            forall|j: int| 0 <= j < k ==> lex_leq(#[trigger] rv[j], v@),
        decreases r@.len() - k,
    {
        k = k + 1;
    }
    proof {
        lemma_insert_sorted_at(rv, v@, k as int);
    }
    r.insert(k, v);
    proof {
        assert(version_views(r@) =~= rv.take(k as int) + seq![v@] + rv.skip(k as int));
    }
}

/// The length of the run of elements equal to `s[i]` that starts at `i`.
pub open spec fn run_len_at(s: Seq<Seq<char>>, i: int) -> int
    decreases s.len() - i,
{
    if i + 1 < s.len() && s[i + 1] == s[i] {
        1 + run_len_at(s, i + 1)
    } else {
        1
    }
}

pub proof fn lemma_run_len_bounds(s: Seq<Seq<char>>, i: int)
    requires
        0 <= i < s.len(),
    ensures
        1 <= run_len_at(s, i) <= s.len() - i,
        forall|j: int| i <= j < i + run_len_at(s, i) ==> #[trigger] s[j] == s[i],
        i + run_len_at(s, i) == s.len() || s[i + run_len_at(s, i)] != s[i],
    decreases s.len() - i,
{
    if i + 1 < s.len() && s[i + 1] == s[i] {
        lemma_run_len_bounds(s, i + 1);
    }
}

proof fn lemma_run_len_is(s: Seq<Seq<char>>, i: int, j: int)
    requires
        0 <= i < j <= s.len(),
        forall|k: int| i < k < j ==> #[trigger] s[k] == s[i],
        j == s.len() || s[j] != s[i],
    ensures
        run_len_at(s, i) == j - i,
    decreases j - i,
{
    if i + 1 < j {
        lemma_run_len_is(s, i + 1, j);
    }
}

/// A collapsed version entry: the text itself, or the text with its
/// occurrence count appended when it occurred more than once.
pub open spec fn with_count(v: Seq<char>, count: nat) -> Seq<char> {
    if count > 1 {
        v + seq![' ', '*', ' '] + spec_decimal(count)
    } else {
        v
    }
}

/// Collapses consecutive duplicates of a sorted version list from `i` on.
pub open spec fn collapse_from(s: Seq<Seq<char>>, i: int) -> Seq<Seq<char>>
    decreases s.len() - i,
    when 0 <= i
    via collapse_from_decreases
{
    if i >= s.len() {
        Seq::empty()
    } else {
        let k = run_len_at(s, i);
        seq![with_count(s[i], k as nat)] + collapse_from(s, i + k)
    }
}

#[via_fn]
proof fn collapse_from_decreases(s: Seq<Seq<char>>, i: int) {
    if 0 <= i < s.len() {
        lemma_run_len_bounds(s, i);
    }
}

/// The deduplicated form of a version list: sorted, with consecutive
/// duplicates collapsed into one entry carrying an occurrence count.
pub open spec fn spec_deduplicate(l: Seq<Seq<char>>) -> Seq<Seq<char>> {
    collapse_from(sort_versions(l), 0)
}

/// A deduplicated list is empty exactly when the input was.
pub proof fn lemma_deduplicate_len(l: Seq<Seq<char>>)
    ensures
        spec_deduplicate(l).len() == 0 <==> l.len() == 0,
{
    lemma_sort_versions_len(l);
    if l.len() > 0 {
        lemma_run_len_bounds(sort_versions(l), 0);
    }
}

/// Sorts a version list, then collapses each run of equal versions into one
/// entry; a run of `n > 1` occurrences renders as the version text followed
/// by ` * n`.
pub fn deduplicate_versions(versions: &mut Vec<String>)
    ensures
        version_views(final(versions)@) == spec_deduplicate(version_views(old(versions)@)),
{
    let ghost input = version_views(versions@);
    let mut sorted: Vec<String> = Vec::new();
    let mut idx: usize = 0;
    proof {
        assert(input.take(0) =~= Seq::<Seq<char>>::empty());
    }
    while idx < versions.len()
        invariant
            idx <= versions@.len(),
            input == version_views(versions@),
            input.len() == versions@.len(),
            version_views(sorted@) == sort_versions(input.take(idx as int)),
        decreases versions@.len() - idx,
    {
        let v = versions[idx].clone();
        insert_version(&mut sorted, v);
        proof {
            assert(input.take(idx + 1).drop_last() =~= input.take(idx as int));
            assert(input.take(idx + 1).last() == input[idx as int]);
        }
        idx = idx + 1;
    }
    proof {
        assert(input.take(input.len() as int) =~= input);
    }
    let ghost sortedv = version_views(sorted@);
    let mut result: Vec<String> = Vec::new();
    let mut i: usize = 0;
    proof {
        assert(version_views(result@) + collapse_from(sortedv, 0) =~= collapse_from(sortedv, 0));
    }
    while i < sorted.len()
        invariant
            i <= sorted@.len(),
            sortedv == version_views(sorted@),
            sortedv.len() == sorted@.len(),
            version_views(result@) + collapse_from(sortedv, i as int) =~= collapse_from(sortedv, 0),
        decreases sorted@.len() - i,
    {
        let mut j: usize = i + 1;
        while j < sorted.len() && string_eq(&sorted[j], &sorted[i])
            invariant
                i < j <= sorted@.len(),
                sortedv == version_views(sorted@),
                sortedv.len() == sorted@.len(),
                forall|k: int| i < k < j ==> #[trigger] sortedv[k] == sortedv[i as int],
            decreases sorted@.len() - j,
        {
            j = j + 1;
        }
        proof {
            lemma_run_len_is(sortedv, i as int, j as int);
        }
        let count = j - i;
        let mut entry = sorted[i].clone();
        if count > 1 {
            push_char(&mut entry, ' ');
            push_char(&mut entry, '*');
            push_char(&mut entry, ' ');
            let digits = usize_to_string(count);
            entry.append(digits.as_str());
            proof {
                assert(entry@ =~= with_count(sortedv[i as int], count as nat));
            }
        }
        let ghost prior = result@;
        result.push(entry);
        proof {
            assert(version_views(result@) =~= version_views(prior).push(
                with_count(sortedv[i as int], count as nat),
            ));
            assert(collapse_from(sortedv, i as int) =~= seq![
                with_count(sortedv[i as int], count as nat),
            ] + collapse_from(sortedv, j as int));
            assert(version_views(result@) + collapse_from(sortedv, j as int) =~= version_views(
                prior,
            ) + collapse_from(sortedv, i as int));
        }
        i = j;
    }
    proof {
        assert(collapse_from(sortedv, i as int) =~= Seq::<Seq<char>>::empty());
        assert(version_views(result@) =~= version_views(result@) + collapse_from(
            sortedv,
            i as int,
        ));
    }
    *versions = result;
}

} // verus!
