//! Size difference report: the two closure sizes and their signed
//! difference, each formatted as human-readable text and styled by its role.

use vstd::prelude::*;
use vstd::string::StringExecFns;

use crate::span::Role;
use crate::span::Span;
use crate::span::SpanModel;
use crate::span::push_span;
use crate::span::spans_view;

verus! {

/// The human-readable text of a byte count. It depends on the byte count
/// alone; its exact shape is the formatting crate's, so it stands as a name
/// that the formatting wrapper's contract applies.
pub uninterp spec fn size_text(bytes: int) -> Seq<char>;

/// Relies on the `Display` of `size::Size`: the default base-2 abbreviated
/// rendering of a byte count, a function of the byte count alone.
#[verifier::external_body]
fn format_size(bytes: i64) -> (r: String)
    ensures
        r@ == size_text(bytes as int),
{
    size::Size::from_bytes(bytes).to_string()
}

/// The role that styles the size difference: an increase as added, a
/// decrease or no change as removed.
pub open spec fn diff_role(diff: int) -> Role {
    if diff > 0 {
        Role::Added
    } else {
        Role::Removed
    }
}

/// The spans of the size report: the old and new sizes on one line, their
/// signed difference on the next, styled by its sign.
pub open spec fn spec_size_report(size_old: int, size_new: int) -> Seq<SpanModel> {
    seq![
        SpanModel { text: seq!['S', 'I', 'Z', 'E'], role: Role::Header },
        SpanModel { text: seq![':', ' '], role: Role::Plain },
        SpanModel { text: size_text(size_old), role: Role::Removed },
        SpanModel { text: seq![' ', '-', '>', ' '], role: Role::Plain },
        SpanModel { text: size_text(size_new), role: Role::Added },
        SpanModel { text: seq!['\n'], role: Role::Plain },
        SpanModel { text: seq!['D', 'I', 'F', 'F'], role: Role::Header },
        SpanModel { text: seq![':', ' '], role: Role::Plain },
        SpanModel { text: size_text(size_new - size_old), role: diff_role(size_new - size_old) },
        SpanModel { text: seq!['\n'], role: Role::Plain },
    ]
}

/// Writes the size difference report for two closure sizes in bytes.
pub fn write_size_diffln(out: &mut Vec<Span>, size_old: i64, size_new: i64)
    requires
        0 <= size_old,
        0 <= size_new,
    ensures
        spans_view(final(out)@) == spans_view(old(out)@) + spec_size_report(
            size_old as int,
            size_new as int,
        ),
{
    let ghost base = spans_view(out@);
    let size_diff = size_new - size_old;
    let size_word = String::from_str("SIZE");
    proof {
        reveal_strlit("SIZE");
        assert(size_word@ =~= seq!['S', 'I', 'Z', 'E']);
    }
    push_span(out, Role::Header, size_word);
    let colon = String::from_str(": ");
    proof {
        reveal_strlit(": ");
        assert(colon@ =~= seq![':', ' ']);
    }
    push_span(out, Role::Plain, colon);
    push_span(out, Role::Removed, format_size(size_old));
    let arrow = String::from_str(" -> ");
    proof {
        reveal_strlit(" -> ");
        assert(arrow@ =~= seq![' ', '-', '>', ' ']);
    }
    push_span(out, Role::Plain, arrow);
    push_span(out, Role::Added, format_size(size_new));
    let nl = String::from_str("\n");
    proof {
        reveal_strlit("\n");
        assert(nl@ =~= seq!['\n']);
    }
    push_span(out, Role::Plain, nl);
    let diff_word = String::from_str("DIFF");
    proof {
        reveal_strlit("DIFF");
        assert(diff_word@ =~= seq!['D', 'I', 'F', 'F']);
    }
    push_span(out, Role::Header, diff_word);
    let colon2 = String::from_str(": ");
    proof {
        reveal_strlit(": ");
        assert(colon2@ =~= seq![':', ' ']);
    }
    push_span(out, Role::Plain, colon2);
    let role = if size_diff > 0 {
        Role::Added
    } else {
        Role::Removed
    };
    push_span(out, role, format_size(size_diff));
    let nl2 = String::from_str("\n");
    proof {
        reveal_strlit("\n");
        assert(nl2@ =~= seq!['\n']);
    }
    push_span(out, Role::Plain, nl2);
    proof {
        assert(spans_view(out@) =~= base + spec_size_report(size_old as int, size_new as int));
    }
}

} // verus!
