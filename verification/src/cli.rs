//! The decisions of the command line that need no repository: how a
//! failure maps to an exit code, and how an observed value is read from
//! its `kind:text` form.
use vstd::prelude::*;
use crate::text::{owned, sbytes, str_eq, lemma_sbytes_injective};
use crate::model::{split_around, push_str};
use crate::obs::Value;
use crate::causal::{u64_of_text, digits_of, parse_u64, parse_digits};
use crate::describe::{debug_str, debug_str_spec};

verus! {

/// A failed command.
#[derive(Debug, Clone, PartialEq, Eq)]
pub enum CliError {
    /// A usage problem: the message goes to stderr, exit code 2.
    Usage(String),
    /// A runtime problem: the message goes to stderr, exit code 1.
    Runtime(String),
}

impl CliError {
    /// The process exit code for this failure.
    pub fn exit_code(&self) -> (r: i32)
        ensures
            r == (if self is Usage {
                2i32
            } else {
                1i32
            }),
    {
        match self {
            CliError::Usage(_) => 2,
            CliError::Runtime(_) => 1,
        }
    }
}

/// The number a signed decimal text denotes, as `str::parse::<i64>` reads
/// it: an optional sign and at least one digit, within range.
pub open spec fn i64_of_text(b: Seq<u8>) -> Option<i64> {
    if b.len() > 0 && b[0] == 45 {
        match digits_of(b.skip(1)) {
            Some(v) => if v <= 0x8000_0000_0000_0000 {
                Some((-(v as int)) as i64)
            } else {
                None
            },
            None => None,
        }
    } else {
        match u64_of_text(b) {
            Some(v) => if v <= i64::MAX {
                Some(v as i64)
            } else {
                None
            },
            None => None,
        }
    }
}

/// Parse a signed decimal number written in ASCII bytes.
pub fn parse_i64(b: &[u8]) -> (r: Option<i64>)
    ensures
        r == i64_of_text(b@),
{
    if b.len() > 0 && b[0] == 45 {
        match parse_digits(b, 1) {
            Some(v) => if v <= 0x8000_0000_0000_0000 {
                if v == 0x8000_0000_0000_0000 {
                    Some(i64::MIN)
                } else {
                    let w: i64 = v as i64;
                    Some(-w)
                }
            } else {
                None
            },
            None => None,
        }
    } else {
        match parse_u64(b) {
            Some(v) => if v <= 0x7fff_ffff_ffff_ffff {
                Some(v as i64)
            } else {
                None
            },
            None => None,
        }
    }
}

/// The text whose UTF-8 encoding is `b`.
pub open spec fn str_of_bytes(b: Seq<u8>) -> Seq<char> {
    choose|t: Seq<char>| sbytes(t) == b
}

/// Position `i` holds the first `:` of `b`.
pub open spec fn first_colon(b: Seq<u8>, i: int) -> bool {
    0 <= i < b.len() && b[i] == 58 && forall|j: int| 0 <= j < i ==> b[j] != 58
}

/// What reading `kind:rest` gives, with the first `:` at position `i`.
pub open spec fn value_read(b: Seq<u8>, i: int, r: Result<Value, CliError>) -> bool {
    let kind = b.take(i);
    let rest = b.skip(i + 1);
    if kind == sbytes("counter"@) {
        match u64_of_text(rest) {
            Some(v) => r == Ok::<Value, CliError>(Value::Counter(v)),
            None => r matches Err(CliError::Runtime(m)) && m@ == "counter value must be u64, got "@
                + debug_str_spec(str_of_bytes(rest)),
        }
    } else if kind == sbytes("gauge"@) {
        match i64_of_text(rest) {
            Some(v) => r == Ok::<Value, CliError>(Value::Gauge(v)),
            None => r matches Err(CliError::Runtime(m)) && m@ == "gauge value must be i64, got "@
                + debug_str_spec(str_of_bytes(rest)),
        }
    } else if kind == sbytes("event"@) {
        r matches Ok(Value::Event(t)) && sbytes(t@) == rest
    } else {
        r matches Err(CliError::Runtime(m)) && m@ == "unknown value kind "@ + debug_str_spec(
            str_of_bytes(kind),
        ) + " (expected counter|gauge|event)"@
    }
}

proof fn lemma_str_of_bytes(t: Seq<char>)
    ensures
        str_of_bytes(sbytes(t)) == t,
{
    let c = str_of_bytes(sbytes(t));
    assert(sbytes(c) == sbytes(t));
    lemma_sbytes_injective(c, t);
}

/// Read an observed value written `counter:<u64>`, `gauge:<i64>` or
/// `event:<text>`.
pub fn parse_value(s: &str) -> (r: Result<Value, CliError>)
    ensures
        (forall|i: int| 0 <= i < sbytes(s@).len() ==> sbytes(s@)[i] != 58) ==> (r matches Err(
            CliError::Runtime(m),
        ) && m@ == "value must be counter:<u64>, gauge:<i64>, or event:<text>"@),
        forall|i: int| first_colon(sbytes(s@), i) ==> value_read(sbytes(s@), i, r),
{
    let b = s.as_bytes();
    proof {
        assert(b@ == sbytes(s@));
    }
    let mut i: usize = 0;
    while i < b.len() && b[i] != 58
        invariant
            b@ == sbytes(s@),
            i <= b@.len(),
            forall|j: int| 0 <= j < i ==> b@[j] != 58,
        decreases b.len() - i,
    {
        i = i + 1;
    }
    if i == b.len() {
        return Err(CliError::Runtime(owned("value must be counter:<u64>, gauge:<i64>, or event:<text>")));
    }
    let ghost at = i as int;
    proof {
        assert(first_colon(b@, at));
        assert forall|k: int| first_colon(b@, k) implies k == at by {
            if k < at {
                assert(b@[k] != 58);
            } else if k > at {
                assert(b@[at] != 58);
            }
        }
    }
    let (kind, rest) = split_around(s, i);
    proof {
        lemma_str_of_bytes(kind@);
        lemma_str_of_bytes(rest@);
    }
    let rb = rest.as_bytes();
    proof {
        assert(rb@ == sbytes(rest@));
    }
    if str_eq(kind, "counter") {
        match parse_u64(rb) {
            Some(v) => Ok(Value::Counter(v)),
            None => {
                let mut m = owned("counter value must be u64, got ");
                let d = debug_str(rest);
                push_str(&mut m, d.as_str());
                Err(CliError::Runtime(m))
            },
        }
    } else if str_eq(kind, "gauge") {
        proof {
            if sbytes(kind@) == sbytes("counter"@) {
                lemma_sbytes_injective(kind@, "counter"@);
            }
        }
        match parse_i64(rb) {
            Some(v) => Ok(Value::Gauge(v)),
            None => {
                let mut m = owned("gauge value must be i64, got ");
                let d = debug_str(rest);
                push_str(&mut m, d.as_str());
                Err(CliError::Runtime(m))
            },
        }
    } else if str_eq(kind, "event") {
        proof {
            if sbytes(kind@) == sbytes("counter"@) {
                lemma_sbytes_injective(kind@, "counter"@);
            }
            if sbytes(kind@) == sbytes("gauge"@) {
                lemma_sbytes_injective(kind@, "gauge"@);
            }
        }
        Ok(Value::Event(owned(rest)))
    } else {
        proof {
            if sbytes(kind@) == sbytes("counter"@) {
                lemma_sbytes_injective(kind@, "counter"@);
            }
            if sbytes(kind@) == sbytes("gauge"@) {
                lemma_sbytes_injective(kind@, "gauge"@);
            }
            if sbytes(kind@) == sbytes("event"@) {
                lemma_sbytes_injective(kind@, "event"@);
            }
        }
        let mut m = owned("unknown value kind ");
        let d = debug_str(kind);
        push_str(&mut m, d.as_str());
        push_str(&mut m, " (expected counter|gauge|event)");
        Err(CliError::Runtime(m))
    }
}

} // verus!
