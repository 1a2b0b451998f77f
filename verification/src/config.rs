//! Process-wide service configuration: the concurrency limit, the listen
//! port and the optional route prefix, each read once at startup from a
//! raw textual value and defaulted when absent or unparseable.

use vstd::prelude::*;
use crate::nums::{all_digits, dec_val, is_digit};
use vstd::string::StringSliceAdditionalSpecFns;

verus! {

/// Service configuration, immutable after startup.
pub struct Config {
    pub concurrency_limit: Option<usize>,
    pub server_port: u16,
    pub routes_prefix: Option<String>,
}

pub const DEFAULT_CONCURRENCY_LIMIT: usize = 1;

pub const DEFAULT_SERVER_PORT: u16 = 3000;

/// The digits of a numeral as std's unsigned parsers read it: an optional
/// leading '+' is skipped.
pub open spec fn numeral_body(s: Seq<u8>) -> Seq<u8> {
    if s.len() > 0 && s[0] == 43 {
        s.skip(1)
    } else {
        s
    }
}

/// The byte string is a numeral that std's unsigned parsers accept.
pub open spec fn is_unsigned_numeral(s: Seq<u8>) -> bool {
    numeral_body(s).len() > 0 && all_digits(numeral_body(s))
}

/// Value denoted by an accepted numeral.
pub open spec fn numeral_val(s: Seq<u8>) -> nat {
    dec_val(numeral_body(s))
}

/// Parses an unsigned decimal numeral, exactly as std's `usize` parser
/// accepts it: `None` on an empty body, a stray character, or overflow.
pub fn parse_dec(s: &str) -> (r: Option<usize>)
    ensures
        r matches Some(v) ==> is_unsigned_numeral(s.spec_bytes()) && v == numeral_val(
            s.spec_bytes(),
        ),
        r is None ==> !(is_unsigned_numeral(s.spec_bytes()) && numeral_val(s.spec_bytes())
            <= usize::MAX),
{
    let b = s.as_bytes();
    let ghost body = numeral_body(s.spec_bytes());
    let start: usize = if b.len() > 0 && b[0] == 43 {
        1
    } else {
        0
    };
    proof {
        assert(body =~= b@.skip(start as int));
    }
    if b.len() == start {
        return None;
    }
    let mut acc: usize = 0;
    let mut j: usize = start;
    while j < b.len()
        invariant
            start <= j <= b.len(),
            b@ == s.spec_bytes(),
            body == numeral_body(s.spec_bytes()),
            body =~= b@.skip(start as int),
            all_digits(body.take(j - start)),
            acc == dec_val(body.take(j - start)),
        decreases b.len() - j,
    {
        let d = b[j];
        if !(48 <= d && d <= 57) {
            proof {
                assert(!all_digits(body)) by {
                    assert(!is_digit(body[j - start]));
                }
            }
            return None;
        }
        proof {
            crate::nums::lemma_dec_val_take_step(body, j - start);
        }
        let wide = match acc.checked_mul(10) {
            Some(w) => w.checked_add((d - 48) as usize),
            None => None,
        };
        match wide {
            Some(w) => {
                acc = w;
            },
            None => {
                proof {
                    if all_digits(body) {
                        assert(dec_val(body.take(j - start + 1)) > usize::MAX);
                        crate::nums::lemma_dec_val_prefix(body, j - start + 1);
                        assert(numeral_val(s.spec_bytes()) > usize::MAX);
                    }
                }
                return None;
            },
        }
        j = j + 1;
        proof {
            assert(all_digits(body.take(j - start))) by {
                assert(forall|i: int|
                    0 <= i < j - start ==> is_digit(#[trigger] body.take(j - start)[i]));
            }
        }
    }
    proof {
        assert(body.take(j - start) =~= body);
    }
    Some(acc)
}

impl Config {
    /// Reads an optional raw value as a `usize`, discarding anything the
    /// decimal parser rejects.
    pub fn load_opt_usize(raw: Option<&str>) -> (r: Option<usize>)
        ensures
            r matches Some(v) ==> (raw matches Some(s) && is_unsigned_numeral(s.spec_bytes())
                && v == numeral_val(s.spec_bytes())),
            r is None ==> !(raw matches Some(s) && is_unsigned_numeral(s.spec_bytes())
                && numeral_val(s.spec_bytes()) <= usize::MAX),
    {
        match raw {
            None => None,
            Some(s) => parse_dec(s),
        }
    }

    /// Reads an optional raw value as a `u16`, discarding anything the
    /// decimal parser rejects.
    pub fn load_opt_u16(raw: Option<&str>) -> (r: Option<u16>)
        ensures
            r matches Some(v) ==> (raw matches Some(s) && is_unsigned_numeral(s.spec_bytes())
                && v == numeral_val(s.spec_bytes())),
            r is None ==> !(raw matches Some(s) && is_unsigned_numeral(s.spec_bytes())
                && numeral_val(s.spec_bytes()) <= u16::MAX),
    {
        match raw {
            None => None,
            Some(s) => match parse_dec(s) {
                Some(v) => if v <= 65535 {
                    Some(v as u16)
                } else {
                    None
                },
                None => None,
            },
        }
    }

    /// Assembles the configuration from the raw environment values,
    /// substituting a default for an absent or unparseable entry.
    pub fn new(limit: Option<&str>, port: Option<&str>, prefix: Option<String>) -> (c: Config)
        ensures
            c.server_port == (match port {
                Some(s) => if is_unsigned_numeral(s.spec_bytes()) && numeral_val(s.spec_bytes())
                    <= u16::MAX {
                    numeral_val(s.spec_bytes()) as u16
                } else {
                    DEFAULT_SERVER_PORT
                },
                None => DEFAULT_SERVER_PORT,
            }),
            c.concurrency_limit matches Some(l) && l == (match limit {
                Some(s) => if is_unsigned_numeral(s.spec_bytes()) && numeral_val(s.spec_bytes())
                    <= usize::MAX {
                    numeral_val(s.spec_bytes()) as usize
                } else {
                    DEFAULT_CONCURRENCY_LIMIT
                },
                None => DEFAULT_CONCURRENCY_LIMIT,
            }),
            (c.routes_prefix matches Some(p) && (prefix matches Some(q) && p@ == q@))
                || (c.routes_prefix is None && prefix is None),
    {
        let concurrency_limit = match Self::load_opt_usize(limit) {
            Some(l) => Some(l),
            None => Some(DEFAULT_CONCURRENCY_LIMIT),
        };
        let server_port = match Self::load_opt_u16(port) {
            Some(p) => p,
            None => DEFAULT_SERVER_PORT,
        };
        Config { concurrency_limit, server_port, routes_prefix: prefix }
    }
}

impl Default for Config {
    /// The defaults: one request at a time, port 3000, no route prefix.
    fn default() -> (c: Config)
        ensures
            c.concurrency_limit == Some(DEFAULT_CONCURRENCY_LIMIT),
            c.server_port == DEFAULT_SERVER_PORT,
            c.routes_prefix is None,
    {
        Config {
            concurrency_limit: Some(DEFAULT_CONCURRENCY_LIMIT),
            server_port: DEFAULT_SERVER_PORT,
            routes_prefix: None,
        }
    }
}

} // verus!
