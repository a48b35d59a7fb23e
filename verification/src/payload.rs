//! Byte framing for payloads: a self-delimiting escape encoding for
//! variable-length fields, and the UTF-8 step for string fields.
//!
//! A field is written byte for byte, with `0xFF` doubled and a final
//! `0xFF 0x00` terminator, so fields of any length concatenate and parse back
//! unambiguously.

use vstd::prelude::*;
use vstd::utf8::{decode_utf8, encode_utf8, valid_utf8};

verus! {

/// The escaped body of a byte string: every `0xFF` doubled.
pub open spec fn esc_body(b: Seq<u8>) -> Seq<u8>
    decreases b.len(),
{
    if b.len() == 0 {
        Seq::empty()
    } else if b[0] == 0xFFu8 {
        seq![0xFFu8, 0xFFu8] + esc_body(b.drop_first())
    } else {
        seq![b[0]] + esc_body(b.drop_first())
    }
}

/// One framed field: the escaped body followed by the `0xFF 0x00` terminator.
pub open spec fn esc(b: Seq<u8>) -> Seq<u8> {
    esc_body(b) + seq![0xFFu8, 0x00u8]
}

/// Parse one framed field: the decoded bytes and the remainder after the
/// terminator, or `None` when the input is not a framed field.
pub open spec fn unesc(b: Seq<u8>) -> Option<(Seq<u8>, Seq<u8>)>
    decreases b.len(),
{
    if b.len() == 0 {
        None
    } else if b[0] != 0xFFu8 {
        match unesc(b.drop_first()) {
            Some((d, rest)) => Some((seq![b[0]] + d, rest)),
            None => None,
        }
    } else if b.len() < 2 {
        None
    } else if b[1] == 0x00u8 {
        Some((Seq::empty(), b.skip(2)))
    } else if b[1] == 0xFFu8 {
        match unesc(b.skip(2)) {
            Some((d, rest)) => Some((seq![0xFFu8] + d, rest)),
            None => None,
        }
    } else {
        None
    }
}

/// Appending one byte to a field appends its escape to the body.
proof fn lemma_esc_body_snoc(b: Seq<u8>, x: u8)
    ensures
        esc_body(b.push(x)) == esc_body(b) + if x == 0xFFu8 {
            seq![0xFFu8, 0xFFu8]
        } else {
            seq![x]
        },
    decreases b.len(),
{
    let unit = if x == 0xFFu8 {
        seq![0xFFu8, 0xFFu8]
    } else {
        seq![x]
    };
    if b.len() == 0 {
        assert(b.push(x).len() == 1);
        assert(b.push(x)[0] == x);
        assert(b.push(x).drop_first() =~= Seq::<u8>::empty());
        assert(esc_body(Seq::<u8>::empty()) =~= Seq::<u8>::empty());
        assert(esc_body(b.push(x)) =~= esc_body(b) + unit);
    } else {
        assert(b.push(x)[0] == b[0]);
        assert(b.push(x).drop_first() =~= b.drop_first().push(x));
        lemma_esc_body_snoc(b.drop_first(), x);
        if b[0] == 0xFFu8 {
            assert(esc_body(b.push(x)) =~= esc_body(b) + unit);
        } else {
            assert(esc_body(b.push(x)) =~= esc_body(b) + unit);
        }
    }
}

/// Unescaping inverts escaping, whatever follows the terminator.
pub proof fn lemma_unesc_esc(b: Seq<u8>, rest: Seq<u8>)
    ensures
        unesc(esc(b) + rest) == Some((b, rest)),
    decreases b.len(),
{
    let whole = esc(b) + rest;
    if b.len() == 0 {
        assert(esc_body(b) =~= Seq::<u8>::empty());
        assert(whole =~= seq![0xFFu8, 0x00u8] + rest);
        assert(whole[0] == 0xFFu8 && whole[1] == 0x00u8);
        assert(whole.skip(2) =~= rest);
        assert(b =~= Seq::<u8>::empty());
    } else {
        lemma_unesc_esc(b.drop_first(), rest);
        if b[0] == 0xFFu8 {
            assert(whole =~= seq![0xFFu8, 0xFFu8] + (esc(b.drop_first()) + rest));
            assert(whole[0] == 0xFFu8 && whole[1] == 0xFFu8);
            assert(whole.skip(2) =~= esc(b.drop_first()) + rest);
            assert(seq![0xFFu8] + b.drop_first() =~= b);
        } else {
            assert(whole =~= seq![b[0]] + (esc(b.drop_first()) + rest));
            assert(whole.drop_first() =~= esc(b.drop_first()) + rest);
            assert(seq![b[0]] + b.drop_first() =~= b);
        }
    }
}

/// Append one framed field to `out`.
#[verifier::loop_isolation(false)]
pub fn append_field(out: &mut Vec<u8>, data: &[u8])
    ensures
        final(out)@ == old(out)@ + esc(data@),
{
    let ghost orig = out@;
    let mut i: usize = 0;
    while i < data.len()
        invariant
            i <= data@.len(),
            out@ == orig + esc_body(data@.take(i as int)),
        decreases data@.len() - i,
    {
        proof {
            assert(data@.take(i + 1 as int) =~= data@.take(i as int).push(data@[i as int]));
            lemma_esc_body_snoc(data@.take(i as int), data@[i as int]);
        }
        let ghost pre = out@;
        let x = data[i];
        if x == 0xFF {
            out.push(0xFF);
            out.push(0xFF);
            proof {
                assert(out@ =~= pre + seq![0xFFu8, 0xFFu8]);
            }
        } else {
            out.push(x);
            proof {
                assert(out@ =~= pre + seq![x]);
            }
        }
        i += 1;
    }
    let ghost before_term = out@;
    out.push(0xFF);
    out.push(0x00);
    proof {
        assert(data@.take(data@.len() as int) =~= data@);
        assert(out@ =~= before_term + seq![0xFFu8, 0x00u8]);
        assert(out@ =~= orig + esc(data@));
    }
}

/// Parse one framed field of `b` starting at `pos`: the decoded bytes and the
/// position after the terminator.
#[verifier::loop_isolation(false)]
pub fn read_field(b: &[u8], pos: usize) -> (r: Option<(Vec<u8>, usize)>)
    requires
        pos <= b@.len(),
    ensures
        match r {
            Some((data, newpos)) => pos < newpos <= b@.len() && unesc(b@.skip(pos as int)) == Some(
                (data@, b@.skip(newpos as int)),
            ),
            None => unesc(b@.skip(pos as int)) is None,
        },
{
    let mut acc: Vec<u8> = Vec::new();
    let mut i: usize = pos;
    while i < b.len()
        invariant
            pos <= i <= b@.len(),
            unesc(b@.skip(pos as int)) == match unesc(b@.skip(i as int)) {
                Some((d, rest)) => Some((acc@ + d, rest)),
                None => None::<(Seq<u8>, Seq<u8>)>,
            },
        decreases b@.len() - i,
    {
        let x = b[i];
        proof {
            assert(b@.skip(i as int)[0] == b@[i as int]);
        }
        if x != 0xFF {
            proof {
                assert(b@.skip(i as int).drop_first() =~= b@.skip(i + 1 as int));
                match unesc(b@.skip(i + 1 as int)) {
                    Some((d, rest)) => {
                        assert(acc@ + (seq![x] + d) =~= acc@.push(x) + d);
                    },
                    None => {},
                }
            }
            acc.push(x);
            i += 1;
        } else {
            if i + 1 >= b.len() {
                proof {
                    assert(b@.skip(i as int).len() < 2);
                }
                return None;
            }
            let y = b[i + 1];
            proof {
                assert(b@.skip(i as int)[1] == b@[i + 1 as int]);
            }
            if y == 0x00 {
                proof {
                    assert(b@.skip(i as int).skip(2) =~= b@.skip(i + 2 as int));
                    assert(acc@ + Seq::<u8>::empty() =~= acc@);
                }
                return Some((acc, i + 2));
            } else if y == 0xFF {
                proof {
                    assert(b@.skip(i as int).skip(2) =~= b@.skip(i + 2 as int));
                    match unesc(b@.skip(i + 2 as int)) {
                        Some((d, rest)) => {
                            assert(acc@ + (seq![0xFFu8] + d) =~= acc@.push(0xFFu8) + d);
                        },
                        None => {},
                    }
                }
                acc.push(0xFF);
                i += 2;
            } else {
                return None;
            }
        }
    }
    proof {
        assert(b@.skip(i as int).len() == 0);
    }
    None
}

/// Relies on `String::from_utf8`: it accepts exactly valid UTF-8 and returns
/// the string of those very bytes.
#[verifier::external_body]
pub fn string_from_utf8(bytes: Vec<u8>) -> (r: Option<String>)
    ensures
        match r {
            Some(s) => valid_utf8(bytes@) && encode_utf8(s@) == bytes@,
            None => !valid_utf8(bytes@),
        },
{
    String::from_utf8(bytes).ok()
}

/// Append a string as one framed UTF-8 field.
pub fn append_string(out: &mut Vec<u8>, s: &str)
    ensures
        final(out)@ == old(out)@ + esc(encode_utf8(s@)),
{
    append_field(out, s.as_bytes())
}

/// Parse one framed UTF-8 string field of `b` starting at `pos`.
pub fn read_string(b: &[u8], pos: usize) -> (r: Option<(String, usize)>)
    requires
        pos <= b@.len(),
    ensures
        match r {
            Some((s, newpos)) => pos < newpos <= b@.len() && unesc(b@.skip(pos as int)) == Some(
                (encode_utf8(s@), b@.skip(newpos as int)),
            ),
            None => unesc(b@.skip(pos as int)) is None || (unesc(b@.skip(pos as int)) matches Some(
                (d, _),
            ) && !valid_utf8(d)),
        },
{
    match read_field(b, pos) {
        Some((data, newpos)) => match string_from_utf8(data) {
            Some(s) => Some((s, newpos)),
            None => None,
        },
        None => None,
    }
}

} // verus!

verus! {

impl crate::agg::Payload for bool {
    open spec fn spec_to_bytes(self) -> Seq<u8> {
        if self {
            seq![1u8]
        } else {
            seq![0u8]
        }
    }

    open spec fn spec_from_bytes(bytes: Seq<u8>) -> Option<bool> {
        if bytes.len() == 1 && bytes[0] == 1u8 {
            Some(true)
        } else if bytes.len() == 1 && bytes[0] == 0u8 {
            Some(false)
        } else {
            None
        }
    }

    proof fn lemma_bytes_round_trip(self) {
    }

    fn to_bytes(&self) -> (r: Vec<u8>) {
        let mut out: Vec<u8> = Vec::new();
        if *self {
            out.push(1u8);
        } else {
            out.push(0u8);
        }
        proof {
            assert(out@ =~= self.spec_to_bytes());
        }
        out
    }

    fn from_bytes(bytes: &[u8]) -> (r: Option<bool>) {
        if bytes.len() == 1 {
            if bytes[0] == 1u8 {
                Some(true)
            } else if bytes[0] == 0u8 {
                Some(false)
            } else {
                None
            }
        } else {
            None
        }
    }
}

} // verus!
