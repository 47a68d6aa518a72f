//! Deciding which entries of the process registry name a process.
//!
//! The registry lists each live process as an entry whose name is the
//! decimal form of its identifier, beside pseudo-entries whose names
//! are not numbers. An entry names a process exactly when its name is a
//! non-empty string of decimal digits whose value fits the identifier
//! type; every other entry is silently skipped.

use vstd::prelude::*;

verus! {

/// The byte is an ASCII decimal digit.
pub open spec fn is_digit(b: u8) -> bool {
    48 <= b <= 57
}

/// Every byte of the name is a decimal digit.
pub open spec fn all_digits(s: Seq<u8>) -> bool {
    forall|i: int| 0 <= i < s.len() ==> is_digit(#[trigger] s[i])
}

/// The number a string of decimal digits denotes, most significant
/// digit first.
pub open spec fn digits_value(s: Seq<u8>) -> nat
    decreases s.len(),
{
    if s.len() == 0 {
        0
    } else {
        (digits_value(s.drop_last()) * 10 + (s.last() - 48)) as nat
    }
}

/// Reading further digits never makes the number smaller: the value of
/// a prefix is at most the value of the whole.
proof fn lemma_digits_prefix_le(s: Seq<u8>, i: int, j: int)
    requires
        0 <= i <= j <= s.len(),
        all_digits(s),
    ensures
        digits_value(s.take(i)) <= digits_value(s.take(j)),
    decreases j - i,
{
    if i < j {
        lemma_digits_prefix_le(s, i, j - 1);
        assert(s.take(j).drop_last() =~= s.take(j - 1));
        assert(is_digit(s[j - 1]));
    }
}

/// Parse a registry entry's name as a process identifier.
///
/// The name denotes a process exactly when it is non-empty, consists of
/// decimal digits only, and its value fits in the identifier type; the
/// result is then that value. Any other name is not a process and
/// yields `None`.
pub fn parse_pid(name: &[u8]) -> (r: Option<u32>)
    ensures
        r is Some <==> name@.len() > 0 && all_digits(name@) && digits_value(name@)
            <= u32::MAX,
        r is Some ==> r->Some_0 == digits_value(name@),
{
    if name.len() == 0 {
        return None;
    }
    let mut acc: u32 = 0;
    let mut i: usize = 0;
    while i < name.len()
        invariant
            0 <= i <= name@.len(),
            all_digits(name@.take(i as int)),
            acc == digits_value(name@.take(i as int)),
        decreases name@.len() - i,
    {
        let b = name[i];
        if b < 48 || b > 57 {
            assert(!is_digit(name@[i as int]));
            return None;
        }
        let d: u32 = (b - 48) as u32;
        proof {
            assert(name@.take(i + 1).drop_last() =~= name@.take(i as int));
            assert(name@.take(i + 1).last() == name@[i as int]);
        }
        if acc > 429496729 || (acc == 429496729 && d > 5) {
            proof {
                if all_digits(name@) {
                    assert(digits_value(name@.take(i + 1)) > u32::MAX);
                    lemma_digits_prefix_le(name@, i + 1, name@.len() as int);
                    assert(name@.take(name@.len() as int) =~= name@);
                }
            }
            return None;
        }
        acc = acc * 10 + d;
        i = i + 1;
    }
    proof {
        assert(name@.take(name@.len() as int) =~= name@);
    }
    Some(acc)
}

} // verus!
