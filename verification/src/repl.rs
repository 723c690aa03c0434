//! The decision a read-evaluate-print loop makes after each line it reads.
use vstd::prelude::*;
use vstd::string::StringSliceAdditionalSpecFns;

use crate::ast::{result_view, spec_parse, AstParseError, Node, SpecNode};

verus! {

/// Whether the input read so far can be evaluated.
#[derive(Copy, Clone, Debug, PartialEq, Eq, Structural)]
pub enum InputStatus {
    /// Every expression is complete: evaluate the input.
    Ready,
    /// An expression is still open, or there is no expression yet: read another line.
    Incomplete,
    /// The input holds a syntax error that more input cannot mend.
    Invalid(AstParseError),
}

/// The status of input whose parse results are `rs`; `ready` tells whether an expression was
/// complete before them.
pub open spec fn status_of(rs: Seq<Result<SpecNode, AstParseError>>, ready: bool) -> InputStatus
    decreases rs.len(),
{
    if rs.len() == 0 {
        if ready {
            InputStatus::Ready
        } else {
            InputStatus::Incomplete
        }
    } else {
        match rs[0] {
            Ok(_) => status_of(rs.drop_first(), true),
            Err(AstParseError::UnclosedParen) => InputStatus::Incomplete,
            Err(e) => InputStatus::Invalid(e),
        }
    }
}

/// The first parse error decides the status: where the results before it all parsed, an
/// unclosed parenthesis asks for another line (`Incomplete`) and any other error makes the input
/// `Invalid` with that error.
pub proof fn lemma_status_first_error(rs: Seq<Result<SpecNode, AstParseError>>, ready: bool, k: int)
    requires
        0 <= k < rs.len(),
        forall|j: int| 0 <= j < k ==> #[trigger] rs[j] is Ok,
        rs[k] is Err,
    ensures
        rs[k] == Err::<SpecNode, AstParseError>(AstParseError::UnclosedParen) ==> status_of(rs, ready)
            == InputStatus::Incomplete,
        rs[k] != Err::<SpecNode, AstParseError>(AstParseError::UnclosedParen) ==> status_of(rs, ready)
            == InputStatus::Invalid(rs[k]->Err_0),
    decreases k,
{
    if k > 0 {
        assert(rs[0] is Ok);
        let t = rs.drop_first();
        assert forall|j: int| 0 <= j < k - 1 implies #[trigger] t[j] is Ok by {
            assert(rs[j + 1] is Ok);
        }
        lemma_status_first_error(t, true, k - 1);
    }
}

/// Input whose results all parsed is ready when it holds at least one expression, and
/// incomplete when it holds none.
pub proof fn lemma_status_all_parsed(rs: Seq<Result<SpecNode, AstParseError>>, ready: bool)
    requires
        forall|j: int| 0 <= j < rs.len() ==> #[trigger] rs[j] is Ok,
    ensures
        status_of(rs, ready) == (if rs.len() > 0 || ready {
            InputStatus::Ready
        } else {
            InputStatus::Incomplete
        }),
    decreases rs.len(),
{
    if rs.len() > 0 {
        let t = rs.drop_first();
        assert forall|j: int| 0 <= j < t.len() implies #[trigger] t[j] is Ok by {
            assert(rs[j + 1] is Ok);
        }
        lemma_status_all_parsed(t, true);
    }
}

/// An unclosed parenthesis never makes input invalid: whatever the parse results, the status is
/// never `Invalid(UnclosedParen)`, and input whose first error is an unclosed parenthesis waits
/// for more lines.
pub proof fn lemma_unclosed_waits(rs: Seq<Result<SpecNode, AstParseError>>, ready: bool)
    ensures
        status_of(rs, ready) != InputStatus::Invalid(AstParseError::UnclosedParen),
    decreases rs.len(),
{
    if rs.len() > 0 {
        lemma_unclosed_waits(rs.drop_first(), true);
    }
}

/// Decides whether `input` is ready to evaluate, needs more lines, or is invalid: the first
/// parse error decides, an unclosed parenthesis asking for more input.
pub fn input_status(input: &str) -> (r: InputStatus)
    requires
        input.spec_bytes().len() <= u32::MAX,
    ensures
        r == status_of(spec_parse(input@), false),
        r != InputStatus::Invalid(AstParseError::UnclosedParen),
{
    proof {
        lemma_unclosed_waits(spec_parse(input@), false);
    }
    let results = Node::parse(input);
    let ghost rs = spec_parse(input@);
    let mut ready = false;
    let mut k: usize = 0;
    proof {
        assert(rs.skip(0) =~= rs);
    }
    while k < results.len()
        invariant
            k <= results@.len(),
            results@.len() == rs.len(),
            rs == spec_parse(input@),
            forall|q: int| 0 <= q < results@.len() ==> result_view(#[trigger] results@[q]) == rs[q],
            status_of(rs, false) == status_of(rs.skip(k as int), ready),
        decreases results@.len() - k,
    {
        proof {
            assert(rs.skip(k as int).drop_first() =~= rs.skip(k + 1));
            assert(rs.skip(k as int)[0] == rs[k as int]);
            assert(result_view(results@[k as int]) == rs[k as int]);
        }
        match &results[k] {
            Ok(_) => {
                ready = true;
            },
            Err(AstParseError::UnclosedParen) => {
                return InputStatus::Incomplete;
            },
            Err(e) => {
                return InputStatus::Invalid(*e);
            },
        }
        k = k + 1;
    }
    proof {
        assert(rs.skip(k as int) =~= Seq::<Result<SpecNode, AstParseError>>::empty());
    }
    if ready {
        InputStatus::Ready
    } else {
        InputStatus::Incomplete
    }
}

} // verus!
