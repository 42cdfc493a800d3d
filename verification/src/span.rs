//! Styled output model: the renderer emits a sequence of spans, each a piece
//! of text tagged with the role it plays in the report. Turning a role into a
//! concrete style (a terminal color, nothing at all) is the caller's business.

use vstd::prelude::*;

verus! {

/// The role a piece of report text plays. A sink maps each role to a style.
#[derive(Clone, Copy, Debug, PartialEq, Eq, Structural)]
pub enum Role {
    /// Section and report headers.
    Header,
    /// Content present only on the new side.
    Added,
    /// Content present only on the old side.
    Removed,
    /// Content equal on both sides, highlighted as context of a change.
    Unchanged,
    /// Structural text that is never styled.
    Plain,
}

/// One piece of report text together with its role.
#[derive(Debug)]
pub struct Span {
    pub text: String,
    pub role: Role,
}

/// The mathematical value of a `Span`.
#[verifier::ext_equal]
pub struct SpanModel {
    pub text: Seq<char>,
    pub role: Role,
}

impl View for Span {
    type V = SpanModel;

    open spec fn view(&self) -> SpanModel {
        SpanModel { text: self.text@, role: self.role }
    }
}

/// The values of a span sequence, in order.
pub open spec fn spans_view(spans: Seq<Span>) -> Seq<SpanModel> {
    spans.map_values(|s: Span| s@)
}

/// Appends one span with the given role and text.
pub fn push_span(out: &mut Vec<Span>, role: Role, text: String)
    ensures
        spans_view(final(out)@) =~= spans_view(old(out)@).push(
            SpanModel { text: text@, role },
        ),
{
    let ghost prior = out@;
    out.push(Span { text, role });
    proof {
        assert(out@.map_values(|s: Span| s@) =~= prior.map_values(|s: Span| s@).push(
            out@.last()@,
        ));
    }
}

} // verus!
