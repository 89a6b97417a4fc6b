//! The PIN helper's line protocol: each reply line is `OK`, `D <payload>`,
//! `ERR <msg>`, or an informational `S <status>` line. The parsing here is
//! exact; the process plumbing around it is not part of the library.

use vstd::prelude::*;

use crate::errors::StoreError;

verus! {

/// The index of the first space byte at or after `i`, or the length.
pub open spec fn first_space(s: Seq<u8>, i: int) -> int
    decreases s.len() - i,
{
    if i < 0 || i >= s.len() {
        s.len() as int
    } else if s[i] == 32 {
        i
    } else {
        first_space(s, i + 1)
    }
}

/// The tag bytes `"OK"`.
pub open spec fn tag_ok() -> Seq<u8> {
    seq![79u8, 75u8]
}

/// The tag bytes `"ERR"`.
pub open spec fn tag_err() -> Seq<u8> {
    seq![69u8, 82u8, 82u8]
}

/// A reply line of the PIN helper, parsed: a payload on success, the
/// message on failure.
pub enum PinEntryResponse {
    Success(Vec<u8>),
    Error(Vec<u8>),
}

/// The bytes of `b` from `from` to `to`.
fn sub_bytes(b: &[u8], from: usize, to: usize) -> (r: Vec<u8>)
    requires
        from <= to <= b@.len(),
    ensures
        r@ == b@.subrange(from as int, to as int),
{
    let mut out: Vec<u8> = Vec::new();
    let mut i: usize = from;
    while i < to
        invariant
            from <= i <= to <= b@.len(),
            out@ =~= b@.subrange(from as int, i as int),
        decreases to - i,
    {
        out.push(b[i]);
        i = i + 1;
    }
    proof {
        assert(out@ =~= b@.subrange(from as int, to as int));
    }
    out
}

fn find_space(b: &[u8]) -> (r: usize)
    ensures
        r == first_space(b@, 0),
        r <= b@.len(),
{
    let mut i: usize = 0;
    while i < b.len()
        invariant
            i <= b@.len(),
            first_space(b@, 0) == first_space(b@, i as int),
        decreases b@.len() - i,
    {
        if b[i] == 32 {
            return i;
        }
        i = i + 1;
    }
    i
}

impl PinEntryResponse {
    /// Parses one reply line: a line without a space is a success with no
    /// payload if it reads `OK`, else an error carrying the whole line; a
    /// line with a space splits at the first one, and the rest is an error
    /// message after `ERR`, else a payload.
    pub fn parse_response(msg: &[u8]) -> (r: PinEntryResponse)
        ensures
            ({
                let s = msg@;
                let sp = first_space(s, 0);
                if sp == s.len() {
                    if s == tag_ok() {
                        r matches PinEntryResponse::Success(p) && p@.len() == 0
                    } else {
                        r matches PinEntryResponse::Error(m) && m@ == s
                    }
                } else {
                    let prefix = s.take(sp);
                    let suffix = s.skip(sp + 1);
                    if prefix == tag_err() {
                        r matches PinEntryResponse::Error(m) && m@ == suffix
                    } else {
                        r matches PinEntryResponse::Success(p) && p@ == suffix
                    }
                }
            }),
    {
        let sp = find_space(msg);
        if sp == msg.len() {
            if msg.len() == 2 && msg[0] == 79 && msg[1] == 75 {
                proof {
                    assert(msg@ =~= tag_ok());
                }
                PinEntryResponse::Success(Vec::new())
            } else {
                proof {
                    if msg@ == tag_ok() {
                        assert(msg@[0] == 79 && msg@[1] == 75 && msg@.len() == 2);
                    }
                }
                PinEntryResponse::Error(sub_bytes(msg, 0, msg.len()))
            }
        } else {
            let suffix = sub_bytes(msg, sp + 1, msg.len());
            proof {
                assert(suffix@ =~= msg@.skip(sp + 1));
            }
            if sp == 3 && msg[0] == 69 && msg[1] == 82 && msg[2] == 82 {
                proof {
                    assert(msg@.take(3) =~= tag_err());
                }
                PinEntryResponse::Error(suffix)
            } else {
                proof {
                    if msg@.take(sp as int) == tag_err() {
                        assert(msg@.take(sp as int).len() == 3);
                        assert(msg@[0] == 69 && msg@[1] == 82 && msg@[2] == 82);
                    }
                }
                PinEntryResponse::Success(suffix)
            }
        }
    }

    /// The payload, or the error message.
    pub fn unwrap(self) -> (r: Result<Vec<u8>, Vec<u8>>)
        ensures
            match self {
                PinEntryResponse::Success(p) => r == Result::<Vec<u8>, Vec<u8>>::Ok(p),
                PinEntryResponse::Error(m) => r == Result::<Vec<u8>, Vec<u8>>::Err(m),
            },
    {
        match self {
            PinEntryResponse::Success(p) => Result::Ok(p),
            PinEntryResponse::Error(m) => Result::Err(m),
        }
    }
}

/// Whether a reply line is informational: it starts with `S`.
pub fn is_status_line(line: &[u8]) -> (r: bool)
    ensures
        r == (line@.len() > 0 && line@[0] == 83),
{
    line.len() > 0 && line[0] == 83
}

/// Reads the answer to `GETPIN` out of the helper's terminal line: the
/// payload after `D` is the PIN, a bare `OK` is an empty PIN (store the
/// key unencrypted), and anything else means the user canceled.
pub fn interpret_getpin(line: &[u8]) -> (r: Result<Vec<u8>, StoreError>)
    ensures
        ({
            let s = line@;
            let sp = first_space(s, 0);
            if sp == s.len() {
                if s == tag_ok() {
                    r matches Result::Ok(p) && p@.len() == 0
                } else {
                    r == Result::<Vec<u8>, StoreError>::Err(StoreError::PinCanceled)
                }
            } else {
                if s.take(sp) == seq![68u8] {
                    r matches Result::Ok(p) && p@ == s.skip(sp + 1)
                } else {
                    r == Result::<Vec<u8>, StoreError>::Err(StoreError::PinCanceled)
                }
            }
        }),
{
    let sp = find_space(line);
    if sp == line.len() {
        if line.len() == 2 && line[0] == 79 && line[1] == 75 {
            proof {
                assert(line@ =~= tag_ok());
            }
            Result::Ok(Vec::new())
        } else {
            proof {
                if line@ == tag_ok() {
                    assert(line@[0] == 79 && line@[1] == 75 && line@.len() == 2);
                }
            }
            Result::Err(StoreError::PinCanceled)
        }
    } else {
        if sp == 1 && line[0] == 68 {
            let suffix = sub_bytes(line, sp + 1, line.len());
            proof {
                assert(suffix@ =~= line@.skip(sp + 1));
                assert(line@.take(1) =~= seq![68u8]);
            }
            Result::Ok(suffix)
        } else {
            proof {
                if line@.take(sp as int) == seq![68u8] {
                    assert(line@.take(sp as int).len() == 1);
                    assert(line@.take(sp as int)[0] == line@[0]);
                    assert(line@[0] == 68);
                }
            }
            Result::Err(StoreError::PinCanceled)
        }
    }
}

} // verus!
