use vstd::prelude::*;
use vstd::string::StringExecFns;
use crate::distributed::{Timestamp, Op};

verus! {

/// Represents errors that can occur when applying an op.
///
/// The offending op is carried in the error so that it can be buffered and
/// retried. Message rendering only shows identifiers, never values, so `T`
/// needs no human-readable form.
#[derive(PartialEq, Eq, Clone, Copy, Debug)]
pub enum ChronofoldError<T> {
    /// The op's reference timestamp is not yet known locally. Recoverable:
    /// buffer and retry once the predecessor arrives.
    UnknownReference(Op<T>),
    /// An op with the same timestamp was applied already. Recoverable: drop
    /// the duplicate.
    ExistingTimestamp(Op<T>),
    /// The op's originating index exceeds the local log length. Recoverable:
    /// buffer until the log grows.
    FutureTimestamp(Op<T>),
}

/// The decimal digit character of a value below ten.
pub open spec fn digit_char(d: int) -> char {
    if d == 0 { '0' } else if d == 1 { '1' } else if d == 2 { '2' } else if d == 3 { '3' }
    else if d == 4 { '4' } else if d == 5 { '5' } else if d == 6 { '6' } else if d == 7 { '7' }
    else if d == 8 { '8' } else { '9' }
}

/// The decimal digits of a non-negative number, most significant first.
pub open spec fn decimal(n: int) -> Seq<char>
    decreases n,
{
    if n < 10 {
        seq![digit_char(n)]
    } else {
        decimal(n / 10) + seq![digit_char(n % 10)]
    }
}

/// The rendering of a timestamp: `<index, author>`.
pub open spec fn timestamp_text(t: Timestamp) -> Seq<char> {
    seq!['<'] + decimal(t.0.0 as int) + seq![',', ' '] + decimal(t.1 as int) + seq!['>']
}

/// Renders one decimal digit.
fn digit_str(d: u64) -> (r: String)
    requires
        d < 10,
    ensures
        r@ =~= seq![digit_char(d as int)],
{
    proof {
        reveal_strlit("0");
        reveal_strlit("1");
        reveal_strlit("2");
        reveal_strlit("3");
        reveal_strlit("4");
        reveal_strlit("5");
        reveal_strlit("6");
        reveal_strlit("7");
        reveal_strlit("8");
        reveal_strlit("9");
    }
    let s = match d {
        0 => "0",
        1 => "1",
        2 => "2",
        3 => "3",
        4 => "4",
        5 => "5",
        6 => "6",
        7 => "7",
        8 => "8",
        _ => "9",
    };
    let r = s.to_owned();
    proof {
        assert(r@ =~= seq![digit_char(d as int)]);
    }
    r
}

/// Renders a number in decimal.
pub(crate) fn decimal_str(n: u64) -> (r: String)
    ensures
        r@ == decimal(n as int),
    decreases n,
{
    if n < 10 {
        digit_str(n)
    } else {
        let mut s = decimal_str(n / 10);
        let d = digit_str(n % 10);
        s.append(d.as_str());
        proof {
            assert(s@ =~= decimal(n as int));
        }
        s
    }
}

/// Renders a timestamp as `<index, author>`.
pub fn timestamp_str(t: &Timestamp) -> (r: String)
    ensures
        r@ == timestamp_text(*t),
{
    proof {
        reveal_strlit("<");
        reveal_strlit(", ");
        reveal_strlit(">");
    }
    let mut s = "<".to_owned();
    let idx = decimal_str(t.0.0 as u64);
    s.append(idx.as_str());
    s.append(", ");
    let author = decimal_str(t.1);
    s.append(author.as_str());
    s.append(">");
    proof {
        assert(s@ =~= timestamp_text(*t));
    }
    s
}

impl<T: Copy> ChronofoldError<T> {
    /// The rendering of the error: its kind and the identifying timestamp.
    pub open spec fn message_text(self) -> Seq<char> {
        match self {
            ChronofoldError::UnknownReference(op) => "unknown reference "@
                + timestamp_text(op.payload.spec_reference()->Some_0),
            ChronofoldError::ExistingTimestamp(op) => "existing timestamp "@ + timestamp_text(op.id),
            ChronofoldError::FutureTimestamp(op) => "future timestamp "@ + timestamp_text(op.id),
        }
    }

    /// Renders the error, naming the offending timestamp but not the op's
    /// value.
    ///
    /// An op is only ever rejected for an unknown reference when it carries
    /// one, so the reference may be assumed present.
    pub fn message(&self) -> (r: String)
        requires
            self matches ChronofoldError::UnknownReference(op)
                ==> op.payload.spec_reference() is Some,
        ensures
            r@ == self.message_text(),
    {
        proof {
            reveal_strlit("unknown reference ");
            reveal_strlit("existing timestamp ");
            reveal_strlit("future timestamp ");
        }
        match self {
            ChronofoldError::UnknownReference(op) => {
                let mut s = "unknown reference ".to_owned();
                let t = match op.payload.reference() {
                    Some(t) => t,
                    None => {
                        proof {
                            assert(false);
                        }
                        op.id
                    },
                };
                let ts = timestamp_str(&t);
                s.append(ts.as_str());
                s
            },
            ChronofoldError::ExistingTimestamp(op) => {
                let mut s = "existing timestamp ".to_owned();
                let ts = timestamp_str(&op.id);
                s.append(ts.as_str());
                s
            },
            ChronofoldError::FutureTimestamp(op) => {
                let mut s = "future timestamp ".to_owned();
                let ts = timestamp_str(&op.id);
                s.append(ts.as_str());
                s
            },
        }
    }
}

} // verus!
