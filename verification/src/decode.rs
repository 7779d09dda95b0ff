//! Bytecode back to space-separated postfix text.
use vstd::prelude::*;
use crate::binary64::INF_MAG;
use crate::display::{display_bytes, display_text};
use crate::error::Error;
use crate::fpu::{mag_bits, mag_of};
use crate::lex::is_lower;
use crate::opcodes;
use crate::wire::{le_value, read_le8};
use crate::writer::{emit, fail, lemma_tail, written_as, Lim, Sink, Writer, sink_of};

verus! {

/// The text of a constant id.
pub open spec fn const_name(id: u8) -> Option<Seq<u8>> {
    if id == opcodes::CONST_E {
        Some(seq![101u8])
    } else if id == opcodes::CONST_PI {
        Some(seq![112u8, 105u8])
    } else {
        None
    }
}

/// The text of a function id.
pub open spec fn func_name(id: u8) -> Option<Seq<u8>> {
    if id == opcodes::FUNC_SIN {
        Some(seq![115u8, 105u8, 110u8])
    } else if id == opcodes::FUNC_COS {
        Some(seq![99u8, 111u8, 115u8])
    } else if id == opcodes::FUNC_TAN {
        Some(seq![116u8, 97u8, 110u8])
    } else if id == opcodes::FUNC_ASIN {
        Some(seq![97u8, 115u8, 105u8, 110u8])
    } else if id == opcodes::FUNC_ACOS {
        Some(seq![97u8, 99u8, 111u8, 115u8])
    } else if id == opcodes::FUNC_ATAN {
        Some(seq![97u8, 116u8, 97u8, 110u8])
    } else if id == opcodes::FUNC_LN {
        Some(seq![108u8, 110u8])
    } else if id == opcodes::FUNC_LOG {
        Some(seq![108u8, 111u8, 103u8])
    } else if id == opcodes::FUNC_LOGB {
        Some(seq![108u8, 111u8, 103u8, 98u8])
    } else {
        None
    }
}

/// The text of a single-byte operator.
pub open spec fn op_name(op: u8) -> Option<Seq<u8>> {
    if op == opcodes::ADD {
        Some(seq![43u8])
    } else if op == opcodes::SUB {
        Some(seq![45u8])
    } else if op == opcodes::MUL {
        Some(seq![42u8])
    } else if op == opcodes::DIV {
        Some(seq![47u8])
    } else if op == opcodes::POW {
        Some(seq![94u8])
    } else if op == opcodes::NEG {
        Some(seq![110u8, 101u8, 103u8])
    } else {
        None
    }
}

pub open spec fn malformed(offset: int) -> Error {
    Error::MalformedRpn { offset: offset as usize }
}

/// Decoding the instructions from `i` on into sink `s`: each one's text,
/// separated by single spaces; a malformed instruction stops with its
/// offset (the separator before it has already been written).
pub open spec fn decode_from(rpn: Seq<u8>, i: int, first: bool, s: Sink, l: Lim) -> Sink
    decreases rpn.len() - i,
{
    if s.err is Some || i < 0 || i >= rpn.len() {
        s
    } else {
        let op = rpn[i];
        let j = i + 1;
        let s1 = if first {
            s
        } else {
            emit(s, seq![32u8], l)
        };
        if s1.err is Some {
            s1
        } else if op == opcodes::NUM {
            if rpn.len() - j < 8 {
                fail(s1, malformed(j))
            } else {
                let v = le_value(rpn.subrange(j, j + 8)) as u64;
                if mag_of(v) >= INF_MAG {
                    fail(s1, malformed(j))
                } else {
                    decode_from(rpn, j + 8, false, emit(s1, display_text(v), l), l)
                }
            }
        } else if op == opcodes::VAR || op == opcodes::CONST || op == opcodes::FUNC {
            if j >= rpn.len() {
                fail(s1, malformed(j))
            } else {
                let b = rpn[j];
                let text = if op == opcodes::VAR {
                    if is_lower(b) {
                        Some(seq![b])
                    } else {
                        None
                    }
                } else if op == opcodes::CONST {
                    const_name(b)
                } else {
                    func_name(b)
                };
                match text {
                    Some(t) => decode_from(rpn, j + 1, false, emit(s1, t, l), l),
                    None => fail(s1, malformed(j)),
                }
            }
        } else {
            match op_name(op) {
                Some(t) => decode_from(rpn, j, false, emit(s1, t, l), l),
                None => fail(s1, malformed(i)),
            }
        }
    }
}

/// What decoding `rpn` into a buffer of `buflen` bytes writes, and how it
/// ends. The text may fill the whole buffer: no other limit applies.
pub open spec fn decode_spec(rpn: Seq<u8>, buflen: nat) -> Sink {
    decode_from(
        rpn,
        0,
        true,
        Sink { out: Seq::empty(), err: None },
        Lim { buflen: buflen, limit: usize::MAX as nat },
    )
}

fn const_text(id: u8) -> (r: Option<Vec<u8>>)
    ensures
        match const_name(id) {
            Some(t) => r matches Some(v) && v@ == t,
            None => r is None,
        },
{
    if id == opcodes::CONST_E {
        Some(vec![101u8])
    } else if id == opcodes::CONST_PI {
        Some(vec![112u8, 105u8])
    } else {
        None
    }
}

fn func_text(id: u8) -> (r: Option<Vec<u8>>)
    ensures
        match func_name(id) {
            Some(t) => r matches Some(v) && v@ == t,
            None => r is None,
        },
{
    if id == opcodes::FUNC_SIN {
        Some(vec![115u8, 105u8, 110u8])
    } else if id == opcodes::FUNC_COS {
        Some(vec![99u8, 111u8, 115u8])
    } else if id == opcodes::FUNC_TAN {
        Some(vec![116u8, 97u8, 110u8])
    } else if id == opcodes::FUNC_ASIN {
        Some(vec![97u8, 115u8, 105u8, 110u8])
    } else if id == opcodes::FUNC_ACOS {
        Some(vec![97u8, 99u8, 111u8, 115u8])
    } else if id == opcodes::FUNC_ATAN {
        Some(vec![97u8, 116u8, 97u8, 110u8])
    } else if id == opcodes::FUNC_LN {
        Some(vec![108u8, 110u8])
    } else if id == opcodes::FUNC_LOG {
        Some(vec![108u8, 111u8, 103u8])
    } else if id == opcodes::FUNC_LOGB {
        Some(vec![108u8, 111u8, 103u8, 98u8])
    } else {
        None
    }
}

fn op_text(op: u8) -> (r: Option<Vec<u8>>)
    ensures
        match op_name(op) {
            Some(t) => r matches Some(v) && v@ == t,
            None => r is None,
        },
{
    if op == opcodes::ADD {
        Some(vec![43u8])
    } else if op == opcodes::SUB {
        Some(vec![45u8])
    } else if op == opcodes::MUL {
        Some(vec![42u8])
    } else if op == opcodes::DIV {
        Some(vec![47u8])
    } else if op == opcodes::POW {
        Some(vec![94u8])
    } else if op == opcodes::NEG {
        Some(vec![110u8, 101u8, 103u8])
    } else {
        None
    }
}

/// The text of one instruction's operand (`None` when malformed): the
/// variable letter, constant or function name after a framing opcode.
fn operand_text(op: u8, b: u8) -> (r: Option<Vec<u8>>)
    requires
        op == opcodes::VAR || op == opcodes::CONST || op == opcodes::FUNC,
    ensures
        ({
            let want = if op == opcodes::VAR {
                if is_lower(b) {
                    Some(seq![b])
                } else {
                    None
                }
            } else if op == opcodes::CONST {
                const_name(b)
            } else {
                func_name(b)
            };
            match want {
                Some(t) => r matches Some(v) && v@ == t,
                None => r is None,
            }
        }),
{
    if op == opcodes::VAR {
        if 97 <= b && b <= 122 {
            Some(vec![b])
        } else {
            None
        }
    } else if op == opcodes::CONST {
        const_text(b)
    } else {
        func_text(b)
    }
}

/// Render bytecode as space-separated postfix text into `out`; returns
/// the number of bytes written. Numbers print as their shortest
/// round-tripping decimal; malformed streams are rejected with the
/// offending offset. The text may fill all of `out`; running out of room
/// is [`Error::BufferTooSmall`].
pub fn decode_into(rpn: &[u8], out: &mut [u8]) -> (r: Result<usize, Error>)
    ensures
        written_as(decode_spec(rpn@, old(out)@.len() as nat), old(out)@, final(out)@, r),
{
    let mut w = Writer::with_limit(usize::MAX);
    let ghost l = w.lim(out@.len() as nat);
    let ghost want = decode_spec(rpn@, out@.len() as nat);
    let mut i: usize = 0;
    let mut first = true;
    proof {
        assert(out@.subrange(0, 0) =~= Seq::<u8>::empty());
        assert(sink_of(w, out@) == Sink { out: Seq::<u8>::empty(), err: None });
    }
    while i < rpn.len()
        invariant
            i <= rpn@.len(),
            w.len <= out@.len(),
            w.limit == usize::MAX,
            out@.len() == old(out)@.len(),
            l == w.lim(out@.len() as nat),
            out@.subrange(w.len as int, out@.len() as int) == old(out)@.subrange(w.len as int, old(out)@.len() as int),
            want == decode_from(rpn@, i as int, first, sink_of(w, out@), l),
            want == decode_spec(rpn@, old(out)@.len() as nat),
        decreases rpn@.len() - i,
    {
        let op = rpn[i];
        let ghost i0 = i as int;
        let ghost first0 = first;
        let ghost s0 = sink_of(w, out@);
        i = i + 1;
        if !first {
            let ghost w0 = w;
            let ghost o0 = out@;
            let r1 = w.emit1(out, 32u8);
            proof {
                lemma_tail(old(out)@, o0, out@, w0.len as int, w0.len as int, w.len as int);
            }
            match r1 {
                Ok(()) => {},
                Err(e) => {
                    proof {
                        assert(want == emit(s0, seq![32u8], l));
                    }
                    return Err(e);
                },
            }
        }
        first = false;
        let ghost s1 = sink_of(w, out@);
        proof {
            assert(s1 == (if first0 { s0 } else { emit(s0, seq![32u8], l) }));
        }
        let ghost w1 = w;
        let ghost o1 = out@;
        if op == opcodes::NUM {
            if rpn.len() - i < 8 {
                return Err(Error::MalformedRpn { offset: i });
            }
            let v = read_le8(rpn, i);
            i = i + 8;
            if mag_bits(v) >= INF_MAG {
                return Err(Error::MalformedRpn { offset: i - 8 });
            }
            let text = display_bytes(v);
            let r2 = w.emit(out, text.as_slice());
            proof {
                lemma_tail(old(out)@, o1, out@, w1.len as int, w1.len as int, w.len as int);
                assert(want == decode_from(rpn@, i as int, false, emit(s1, display_text(v), l), l));
            }
            match r2 {
                Ok(()) => {},
                Err(e) => {
                    return Err(e);
                },
            }
        } else if op == opcodes::VAR || op == opcodes::CONST || op == opcodes::FUNC {
            if i >= rpn.len() {
                return Err(Error::MalformedRpn { offset: i });
            }
            let b = rpn[i];
            match operand_text(op, b) {
                Some(t) => {
                    i = i + 1;
                    let r2 = w.emit(out, t.as_slice());
                    proof {
                        lemma_tail(old(out)@, o1, out@, w1.len as int, w1.len as int, w.len as int);
                        assert(want == decode_from(rpn@, i as int, false, emit(s1, t@, l), l));
                    }
                    match r2 {
                        Ok(()) => {},
                        Err(e) => {
                            return Err(e);
                        },
                    }
                },
                None => {
                    return Err(Error::MalformedRpn { offset: i });
                },
            }
        } else {
            match op_text(op) {
                Some(t) => {
                    let r2 = w.emit(out, t.as_slice());
                    proof {
                        lemma_tail(old(out)@, o1, out@, w1.len as int, w1.len as int, w.len as int);
                        assert(want == decode_from(rpn@, i as int, false, emit(s1, t@, l), l));
                    }
                    match r2 {
                        Ok(()) => {},
                        Err(e) => {
                            return Err(e);
                        },
                    }
                },
                None => {
                    return Err(Error::MalformedRpn { offset: i - 1 });
                },
            }
        }
    }
    Ok(w.finish())
}

} // verus!
