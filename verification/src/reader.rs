//! Values read from a process's memory: numbers, text, and the hops of a
//! pointer chain. The caller reads the bytes; these functions say what
//! they hold.

use crate::ieee::{le_u32, le_u64, read_le_i32, read_le_u64, twos_complement, F32Bits};
use crate::memory::MemoryEngine;
use crate::text::{decimal, to_decimal};
use vstd::prelude::*;
use vstd::string::StringExecFns;
use vstd::utf8::{decode_utf8, valid_utf8};

verus! {

/// What `String::from_utf8` reports about bytes that are not UTF-8.
pub uninterp spec fn utf8_error_text(bytes: Seq<u8>) -> Seq<char>;

/// `String::from_utf8`: the text that the bytes encode if they are valid
/// UTF-8, otherwise the error it reports, as text.
#[verifier::external_body]
fn decode_text(bytes: Vec<u8>) -> (r: Result<String, String>)
    ensures
        r is Ok <==> valid_utf8(bytes@),
        r matches Ok(s) ==> s@ == decode_utf8(bytes@),
        r matches Err(e) ==> e@ == utf8_error_text(bytes@),
{
    match String::from_utf8(bytes) {
        Ok(s) => Ok(s),
        Err(e) => Err(format!("{}", e)),
    }
}

/// The bytes before the first zero byte, or all of them if none is zero.
pub open spec fn until_nul(bytes: Seq<u8>) -> Seq<u8>
    decreases bytes.len(),
{
    if bytes.len() == 0 || bytes[0] == 0 {
        Seq::empty()
    } else {
        seq![bytes[0]] + until_nul(bytes.drop_first())
    }
}

/// What a hop of a pointer chain gives: the pointer that the eight bytes
/// hold plus the offset, modulo 2^64; an error if there are not eight bytes
/// or the pointer is null.
pub open spec fn hop(bytes: Seq<u8>, offset: u64, index: nat) -> Result<u64, Seq<char>> {
    if bytes.len() != 8 {
        Err("Invalid byte count"@)
    } else if le_u64(bytes, 0) == 0 {
        Err("Null pointer at offset index "@ + decimal(index))
    } else {
        Ok(((le_u64(bytes, 0) + offset) % 0x1_0000_0000_0000_0000) as u64)
    }
}

/// The address after the first `n` hops of a chain, given what was read at
/// each hop; the error of the first hop that fails.
pub open spec fn chain(base: u64, offsets: Seq<u64>, reads: Seq<Seq<u8>>, n: nat) -> Result<
    u64,
    Seq<char>,
>
    decreases n,
{
    if n == 0 {
        Ok(base)
    } else {
        match chain(base, offsets, reads, (n - 1) as nat) {
            Err(e) => Err(e),
            Ok(_) => hop(reads[n - 1], offsets[n - 1], (n - 1) as nat),
        }
    }
}

/// The contents of the reads of a chain.
pub open spec fn read_views(reads: Seq<Vec<u8>>) -> Seq<Seq<u8>> {
    Seq::new(reads.len(), |i: int| reads[i]@)
}

impl MemoryEngine {
    /// The signed 32-bit number that four bytes hold, least significant
    /// byte first.
    pub fn read_int32(bytes: &[u8]) -> (r: Result<i32, String>)
        ensures
            bytes@.len() == 4 ==> (r matches Ok(v) && twos_complement(v) == le_u32(
                bytes@[0],
                bytes@[1],
                bytes@[2],
                bytes@[3],
            )),
            bytes@.len() != 4 ==> (r matches Err(e) && e@ == "Invalid byte count"@),
    {
        if bytes.len() != 4 {
            return Err("Invalid byte count".to_owned());
        }
        Ok(read_le_i32(bytes, 0))
    }

    /// The single-precision value that four bytes hold, least significant
    /// byte first.
    pub fn read_float32(bytes: &[u8]) -> (r: Result<F32Bits, String>)
        ensures
            bytes@.len() == 4 ==> (r matches Ok(v) && v.bits == le_u32(
                bytes@[0],
                bytes@[1],
                bytes@[2],
                bytes@[3],
            )),
            bytes@.len() != 4 ==> (r matches Err(e) && e@ == "Invalid byte count"@),
    {
        if bytes.len() != 4 {
            return Err("Invalid byte count".to_owned());
        }
        Ok(F32Bits::read_le(bytes, 0))
    }

    /// The text that the bytes hold up to the first zero byte. Bytes that
    /// are not UTF-8 are an error.
    pub fn read_string(bytes: &[u8]) -> (r: Result<String, String>)
        ensures
            valid_utf8(until_nul(bytes@)) ==> (r matches Ok(s) && s@ == decode_utf8(
                until_nul(bytes@),
            )),
            !valid_utf8(until_nul(bytes@)) ==> (r matches Err(e) && e@ == "Invalid UTF-8: "@
                + utf8_error_text(until_nul(bytes@))),
    {
        let mut text: Vec<u8> = Vec::new();
        let mut i: usize = 0;
        proof {
            assert(bytes@.skip(0) =~= bytes@);
            assert(text@ + until_nul(bytes@) =~= until_nul(bytes@));
            assert(text@ =~= bytes@.take(0));
        }
        while i < bytes.len() && bytes[i] != 0
            invariant
                i <= bytes@.len(),
                text@ == bytes@.take(i as int),
                until_nul(bytes@) == text@ + until_nul(bytes@.skip(i as int)),
            decreases bytes@.len() - i,
        {
            proof {
                let rest = bytes@.skip(i as int);
                assert(rest[0] == bytes@[i as int]);
                assert(rest.drop_first() =~= bytes@.skip(i + 1));
                assert(bytes@.take(i + 1) =~= bytes@.take(i as int).push(bytes@[i as int]));
                assert(text@.push(bytes@[i as int]) + until_nul(bytes@.skip(i + 1)) =~= text@ + (
                seq![bytes@[i as int]] + until_nul(bytes@.skip(i + 1))));
            }
            text.push(bytes[i]);
            i = i + 1;
        }
        proof {
            let rest = bytes@.skip(i as int);
            if i < bytes@.len() {
                assert(rest[0] == bytes@[i as int]);
            }
            assert(until_nul(rest) =~= Seq::<u8>::empty());
            assert(text@ + Seq::<u8>::empty() =~= text@);
        }
        match decode_text(text) {
            Ok(s) => Ok(s),
            Err(e) => {
                let mut message = "Invalid UTF-8: ".to_owned();
                message.append(e.as_str());
                Err(message)
            },
        }
    }

    /// One hop of a pointer chain: from the eight bytes read at the current
    /// address, the address of the next hop.
    pub fn follow_pointer(bytes: &[u8], offset: u64, index: usize) -> (r: Result<u64, String>)
        ensures
            match r {
                Ok(a) => hop(bytes@, offset, index as nat) == Ok::<u64, Seq<char>>(a),
                Err(e) => hop(bytes@, offset, index as nat) == Err::<u64, Seq<char>>(e@),
            },
    {
        if bytes.len() != 8 {
            return Err("Invalid byte count".to_owned());
        }
        let pointer: u64 = read_le_u64(bytes, 0);
        if pointer == 0 {
            let mut message = "Null pointer at offset index ".to_owned();
            let number = to_decimal(index);
            message.append(number.as_str());
            return Err(message);
        }
        let sum: u128 = pointer as u128 + offset as u128;
        Ok((sum % 0x1_0000_0000_0000_0000) as u64)
    }

    /// Follows a chain of pointers: `reads[i]` is what was read at the
    /// address of hop `i`, which is the base address for the first hop and
    /// the result of the hop before for the others. Returns the address
    /// after the last hop.
    pub fn resolve_pointer_chain(base_address: u64, offsets: &[u64], reads: &[Vec<u8>]) -> (r:
        Result<u64, String>)
        requires
            reads@.len() == offsets@.len(),
        ensures
            match r {
                Ok(a) => chain(base_address, offsets@, read_views(reads@), offsets@.len()) == Ok::<
                    u64,
                    Seq<char>,
                >(a),
                Err(e) => chain(base_address, offsets@, read_views(reads@), offsets@.len())
                    == Err::<u64, Seq<char>>(e@),
            },
    {
        let ghost rv = read_views(reads@);
        let mut address: u64 = base_address;
        let mut i: usize = 0;
        while i < offsets.len()
            invariant
                i <= offsets@.len(),
                reads@.len() == offsets@.len(),
                rv == read_views(reads@),
                chain(base_address, offsets@, rv, i as nat) == Ok::<u64, Seq<char>>(address),
            decreases offsets@.len() - i,
        {
            proof {
                assert(rv[i as int] == reads@[i as int]@);
            }
            match Self::follow_pointer(reads[i].as_slice(), offsets[i], i) {
                Ok(next) => {
                    address = next;
                },
                Err(e) => {
                    proof {
                        lemma_chain_error(base_address, offsets@, rv, (i + 1) as nat, offsets@.len());
                    }
                    return Err(e);
                },
            }
            i = i + 1;
        }
        Ok(address)
    }
}

/// Once a hop has failed, the chain keeps its error.
proof fn lemma_chain_error(base: u64, offsets: Seq<u64>, reads: Seq<Seq<u8>>, m: nat, n: nat)
    requires
        m <= n,
        chain(base, offsets, reads, m) is Err,
    ensures
        chain(base, offsets, reads, n) == chain(base, offsets, reads, m),
    decreases n - m,
{
    if m < n {
        lemma_chain_error(base, offsets, reads, m, (n - 1) as nat);
    }
}

} // verus!
