use vstd::prelude::*;
use vstd::string::*;
use vstd::utf8::*;
use crate::error::{ScanError, ScanResult};
use crate::text::{lemma_tail_trans, run_of, skip_ascii, skip_run, tail_of};

verus! {

/// Where a comment scanner stands: before the opening parenthesis, inside `depth` open
/// comments, or right after a backslash inside `depth` open comments.
pub enum CommentMode {
    Start,
    Next(nat),
    Escape(nat),
}

/// What one byte does to a comment scanner.
pub enum CommentStep {
    /// The scanner goes on in this mode.
    Go(CommentMode),
    /// The byte closes the outermost comment.
    Close,
    /// The byte cannot stand here.
    Reject,
}

/// The transition of the comment scanner on byte `c`.
pub open spec fn comment_step(m: CommentMode, c: u8) -> CommentStep {
    match m {
        CommentMode::Start => if c == '(' as u8 {
            CommentStep::Go(CommentMode::Next(1))
        } else {
            CommentStep::Reject
        },
        CommentMode::Next(depth) => if c == ')' as u8 && depth == 1 {
            CommentStep::Close
        } else if c == '\\' as u8 {
            CommentStep::Go(CommentMode::Escape(depth))
        } else if c == '(' as u8 {
            CommentStep::Go(CommentMode::Next(depth + 1))
        } else if c == ')' as u8 {
            CommentStep::Go(CommentMode::Next((depth - 1) as nat))
        } else {
            CommentStep::Go(CommentMode::Next(depth))
        },
        CommentMode::Escape(depth) => CommentStep::Go(CommentMode::Next(depth)),
    }
}

/// Running the comment scanner in mode `m` over `b` from byte `i`: the number of bytes up to
/// and including the closing parenthesis, or why it fails. Running out of input is `TooShort`.
pub open spec fn comment_from(m: CommentMode, b: Seq<u8>, i: int) -> ScanResult<int>
    decreases b.len() - i,
{
    if i < 0 || i >= b.len() {
        Err(ScanError::TooShort)
    } else {
        match comment_step(m, b[i]) {
            CommentStep::Close => Ok(i + 1),
            CommentStep::Reject => Err(ScanError::Invalid),
            CommentStep::Go(n) => comment_from(n, b, i + 1),
        }
    }
}

/// The bytes of `s` after its leading white space.
pub open spec fn trimmed_bytes(s: &str) -> Seq<u8> {
    encode_utf8(s@.skip(run_of(s@, true) as int))
}

enum CommentState {
    Start,
    Next(usize),
    Escape(usize),
}

impl View for CommentState {
    type V = CommentMode;

    closed spec fn view(&self) -> CommentMode {
        match self {
            CommentState::Start => CommentMode::Start,
            CommentState::Next(d) => CommentMode::Next(*d as nat),
            CommentState::Escape(d) => CommentMode::Escape(*d as nat),
        }
    }
}

/// Consumes leading white space and then one comment of RFC 2822, in parentheses, which may
/// nest and in which a backslash takes the next byte as it is.
///
/// Input that ends inside the comment is `TooShort`; input that does not open one after the
/// white space is `Invalid`.
pub fn comment_2822(s: &str) -> (r: ScanResult<(&str, ())>)
    ensures
        match (r, comment_from(CommentMode::Start, trimmed_bytes(s), 0)) {
            (Ok((rest, _)), Ok(k)) => rest.spec_bytes() == trimmed_bytes(s).skip(k) && tail_of(
                rest,
                s,
            ),
            (Err(e), Err(f)) => e == f,
            _ => false,
        },
{
    let t = skip_run(s, true);
    let bytes = t.as_bytes();
    let ghost tb = trimmed_bytes(s);
    assert(tb == bytes@);
    let mut state = CommentState::Start;
    let mut i: usize = 0;
    while i < bytes.len()
        invariant
            tb == trimmed_bytes(s),
            tb == bytes@,
            tb == t.spec_bytes(),
            tail_of(t, s),
            i <= tb.len(),
            comment_from(state@, tb, i as int) == comment_from(CommentMode::Start, tb, 0),
            i == 0 <==> state is Start,
            state matches CommentState::Next(d) ==> 1 <= d <= i,
            state matches CommentState::Escape(d) ==> 1 <= d <= i,
        decreases tb.len() - i,
    {
        let c = bytes[i];
        state = match state {
            CommentState::Start => {
                if c == '(' as u8 {
                    CommentState::Next(1)
                } else {
                    return Err(ScanError::Invalid);
                }
            },
            CommentState::Next(depth) => {
                if c == ')' as u8 && depth == 1 {
                    let rest = skip_ascii(t, i + 1);
                    proof {
                        lemma_tail_trans(rest, t, s);
                    }
                    return Ok((rest, ()));
                } else if c == '\\' as u8 {
                    CommentState::Escape(depth)
                } else if c == '(' as u8 {
                    CommentState::Next(depth + 1)
                } else if c == ')' as u8 {
                    CommentState::Next(depth - 1)
                } else {
                    CommentState::Next(depth)
                }
            },
            CommentState::Escape(depth) => CommentState::Next(depth),
        };
        i = i + 1;
    }
    Err(ScanError::TooShort)
}

} // verus!
