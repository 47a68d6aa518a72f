//! Finding the value of one variable inside a raw environment block.
//!
//! An environment block is a sequence of `NAME=VALUE` entries separated
//! by NUL bytes. The search walks the entries in order and takes the
//! first one that begins with the wanted prefix — the variable's name
//! followed by `=` — and its value is everything after the first `=` of
//! that entry, decoded to text permissively: bytes that are not valid
//! text are replaced, never fatal.

use vstd::prelude::*;
use crate::outcome::EnvVal;
use crate::outcome::EnvValView;

verus! {

/// The position of the first occurrence of `b` in `s`, if any.
pub open spec fn find_byte(s: Seq<u8>, b: u8) -> Option<int>
    decreases s.len(),
{
    if s.len() == 0 {
        None
    } else if s[0] == b {
        Some(0)
    } else {
        match find_byte(s.drop_first(), b) {
            None => None,
            Some(i) => Some(i + 1),
        }
    }
}

/// What `find_byte` finds is an occurrence, and the first one.
pub proof fn lemma_find_byte(s: Seq<u8>, b: u8)
    ensures
        match find_byte(s, b) {
            Some(i) => 0 <= i < s.len() && s[i] == b && forall|k: int|
                0 <= k < i ==> s[k] != b,
            None => forall|k: int| 0 <= k < s.len() ==> s[k] != b,
        },
    decreases s.len(),
{
    if s.len() > 0 && s[0] != b {
        lemma_find_byte(s.drop_first(), b);
        assert(forall|k: int| 1 <= k < s.len() ==> s[k] == s.drop_first()[k - 1]);
    }
}

/// A first occurrence determines `find_byte`.
pub proof fn lemma_find_byte_at(s: Seq<u8>, b: u8, i: int)
    requires
        0 <= i < s.len(),
        s[i] == b,
        forall|k: int| 0 <= k < i ==> s[k] != b,
    ensures
        find_byte(s, b) == Some(i),
{
    lemma_find_byte(s, b);
    match find_byte(s, b) {
        None => {
            assert(s[i] != b);
        },
        Some(j) => {
            if j < i {
                assert(s[j] != b);
            }
            if i < j {
                assert(s[i] != b);
            }
        },
    }
}

/// No occurrence at all determines `find_byte` too.
pub proof fn lemma_find_byte_absent(s: Seq<u8>, b: u8)
    requires
        forall|k: int| 0 <= k < s.len() ==> s[k] != b,
    ensures
        find_byte(s, b) is None,
{
    lemma_find_byte(s, b);
    if let Some(i) = find_byte(s, b) {
        assert(s[i] != b);
    }
}

/// `p` is a prefix of `s`.
pub open spec fn is_prefix(p: Seq<u8>, s: Seq<u8>) -> bool {
    p.len() <= s.len() && s.take(p.len() as int) == p
}

/// The first NUL-separated entry of the block: everything up to the
/// first NUL, or the whole block when it holds none.
pub open spec fn head_entry(block: Seq<u8>) -> Seq<u8> {
    match find_byte(block, 0) {
        None => block,
        Some(i) => block.take(i),
    }
}

/// Everything after the first `=` of an entry, if the entry has one.
pub open spec fn after_first_eq(entry: Seq<u8>) -> Option<Seq<u8>> {
    match find_byte(entry, 61) {
        None => None,
        Some(i) => Some(entry.skip(i + 1)),
    }
}

/// The raw value the block binds to the wanted variable: the first
/// entry that begins with the prefix decides, and yields what follows
/// its first `=`. No matching entry, or a matching entry without `=`,
/// yields nothing.
pub open spec fn lookup(block: Seq<u8>, prefix: Seq<u8>) -> Option<Seq<u8>>
    decreases block.len(),
    via lookup_decreases
{
    if is_prefix(prefix, head_entry(block)) {
        after_first_eq(head_entry(block))
    } else {
        match find_byte(block, 0) {
            None => None,
            Some(i) => lookup(block.skip(i + 1), prefix),
        }
    }
}

#[via_fn]
proof fn lookup_decreases(block: Seq<u8>, prefix: Seq<u8>) {
    lemma_find_byte(block, 0);
}

/// The text that permissive decoding makes of a byte sequence. It
/// depends on the bytes alone; what it is on given bytes is left to the
/// decoder.
pub uninterp spec fn lossy_of(bytes: Seq<u8>) -> Seq<char>;

/// Relies on `String::from_utf8_lossy`: the decoded text is a function
/// of the bytes alone, with every invalid sequence replaced.
#[verifier::external_body]
fn lossy_decode(bytes: &[u8]) -> (r: String)
    ensures
        r@ == lossy_of(bytes@),
{
    String::from_utf8_lossy(bytes).into_owned()
}

/// Build the search prefix from the variable's name: the name's bytes
/// followed by `=`, computed once by the caller of the per-process
/// search.
pub fn make_prefix(name: &[u8]) -> (r: Vec<u8>)
    ensures
        r@ == name@ + seq![61u8],
{
    let mut r: Vec<u8> = Vec::new();
    let mut i: usize = 0;
    while i < name.len()
        invariant
            0 <= i <= name@.len(),
            r@ == name@.take(i as int),
        decreases name@.len() - i,
    {
        r.push(name[i]);
        proof {
            assert(name@.take(i as int).push(name@[i as int]) =~= name@.take(i + 1));
        }
        i = i + 1;
    }
    r.push(61);
    proof {
        assert(name@.take(name@.len() as int) =~= name@);
        assert(name@.push(61u8) =~= name@ + seq![61u8]);
    }
    r
}

/// First occurrence of `b` in `block` within `[start, end)`, scanning
/// forward.
fn scan_byte(block: &[u8], start: usize, end: usize, b: u8) -> (r: Option<usize>)
    requires
        start <= end <= block@.len(),
    ensures
        match r {
            Some(j) => start <= j < end && block@[j as int] == b && forall|k: int|
                start <= k < j ==> block@[k] != b,
            None => forall|k: int| start <= k < end ==> block@[k] != b,
        },
{
    let mut j = start;
    while j < end
        invariant
            start <= j <= end <= block@.len(),
            forall|k: int| start <= k < j ==> block@[k] != b,
        decreases end - j,
    {
        if block[j] == b {
            return Some(j);
        }
        j = j + 1;
    }
    None
}

/// Whether the entry occupying `[start, end)` of the block begins with
/// the prefix.
fn prefix_matches(block: &[u8], start: usize, end: usize, prefix: &[u8]) -> (r: bool)
    requires
        start <= end <= block@.len(),
    ensures
        r == is_prefix(prefix@, block@.subrange(start as int, end as int)),
{
    let ghost entry = block@.subrange(start as int, end as int);
    if prefix.len() > end - start {
        return false;
    }
    let mut k: usize = 0;
    while k < prefix.len()
        invariant
            0 <= k <= prefix@.len(),
            prefix@.len() <= end - start,
            start <= end <= block@.len(),
            entry == block@.subrange(start as int, end as int),
            forall|m: int| 0 <= m < k ==> prefix@[m] == block@[start + m],
        decreases prefix@.len() - k,
    {
        if block[start + k] != prefix[k] {
            assert(entry[k as int] != prefix@[k as int]);
            assert(entry.take(prefix@.len() as int)[k as int] != prefix@[k as int]);
            return false;
        }
        k = k + 1;
    }
    assert(entry.take(prefix@.len() as int) =~= prefix@);
    true
}

/// Copy `[start, end)` of the block into an owned byte vector.
fn copy_range(block: &[u8], start: usize, end: usize) -> (r: Vec<u8>)
    requires
        start <= end <= block@.len(),
    ensures
        r@ == block@.subrange(start as int, end as int),
{
    let mut r: Vec<u8> = Vec::new();
    let mut j = start;
    while j < end
        invariant
            start <= j <= end <= block@.len(),
            r@ == block@.subrange(start as int, j as int),
        decreases end - j,
    {
        r.push(block[j]);
        proof {
            assert(block@.subrange(start as int, j as int).push(block@[j as int])
                =~= block@.subrange(start as int, j + 1));
        }
        j = j + 1;
    }
    r
}

/// Search the environment block for the variable the prefix names.
///
/// Returns the decoded value exactly when the block binds one — the
/// first NUL-separated entry beginning with the prefix, read after its
/// first `=` — and nothing when no entry matches.
pub fn get_envval(block: &[u8], prefix: &[u8]) -> (r: Option<String>)
    ensures
        r is Some <==> lookup(block@, prefix@) is Some,
        r is Some ==> r->Some_0@ == lossy_of(lookup(block@, prefix@)->Some_0),
{
    let ghost target = lookup(block@, prefix@);
    let mut pos: usize = 0;
    proof {
        assert(block@.skip(0) =~= block@);
    }
    loop
        invariant
            pos <= block@.len(),
            target == lookup(block@, prefix@),
            target == lookup(block@.skip(pos as int), prefix@),
        decreases block@.len() - pos,
    {
        let ghost rem = block@.skip(pos as int);
        let nul = scan_byte(block, pos, block.len(), 0);
        let end = match nul {
            Some(j) => j,
            None => block.len(),
        };
        proof {
            assert(forall|k: int| 0 <= k < rem.len() ==> rem[k] == block@[pos + k]);
            match nul {
                Some(j) => {
                    lemma_find_byte_at(rem, 0, j - pos);
                },
                None => {
                    lemma_find_byte_absent(rem, 0);
                },
            }
            assert(head_entry(rem) =~= block@.subrange(pos as int, end as int));
        }
        if prefix_matches(block, pos, end, prefix) {
            let ghost entry = block@.subrange(pos as int, end as int);
            let eq = scan_byte(block, pos, end, 61);
            proof {
                assert(forall|k: int| 0 <= k < entry.len() ==> entry[k] == block@[pos + k]);
            }
            match eq {
                Some(e) => {
                    proof {
                        lemma_find_byte_at(entry, 61, e - pos);
                        assert(entry.skip(e - pos + 1) =~= block@.subrange(e + 1, end as int));
                    }
                    let value = copy_range(block, e + 1, end);
                    let text = lossy_decode(value.as_slice());
                    return Some(text);
                },
                None => {
                    proof {
                        lemma_find_byte_absent(entry, 61);
                    }
                    return None;
                },
            }
        } else {
            match nul {
                Some(j) => {
                    proof {
                        assert(rem.skip(j - pos + 1) =~= block@.skip(j + 1));
                    }
                    pos = j + 1;
                },
                None => {
                    return None;
                },
            }
        }
    }
}

/// The view of what a read attempt handed back: the block's bytes, or
/// nothing when the read failed.
pub open spec fn bytes_view(read: Option<Vec<u8>>) -> Option<Seq<u8>> {
    match read {
        Some(v) => Some(v@),
        None => None,
    }
}

/// The outcome one process contributes, as a function of what reading
/// its environment block handed back and of the search prefix.
pub open spec fn outcome_spec(read: Option<Seq<u8>>, prefix: Seq<u8>) -> EnvValView {
    match read {
        None => EnvValView::Fail,
        Some(bytes) => match lookup(bytes, prefix) {
            None => EnvValView::Nothing,
            Some(v) => EnvValView::Value(lossy_of(v)),
        },
    }
}

/// Fold one process's read attempt into its outcome: a failed read is
/// `Fail`, a readable block without the variable is `Nothing`, and a
/// bound value — decoded permissively — is `Value`. No failure escapes
/// this point.
pub fn classify(read: Option<Vec<u8>>, prefix: &[u8]) -> (r: EnvVal)
    ensures
        r@ == outcome_spec(bytes_view(read), prefix@),
{
    match read {
        None => EnvVal::Fail,
        Some(block) => match get_envval(block.as_slice(), prefix) {
            None => EnvVal::Nothing,
            Some(text) => EnvVal::Value(text),
        },
    }
}

/// Extraction is deterministic: the outcome is a function of the bytes
/// a read handed back and of the prefix alone, so two runs over the
/// same block content agree.
pub proof fn lemma_extraction_deterministic(
    r1: EnvVal,
    r2: EnvVal,
    read: Option<Seq<u8>>,
    prefix: Seq<u8>,
)
    requires
        r1@ == outcome_spec(read, prefix),
        r2@ == outcome_spec(read, prefix),
    ensures
        r1@ == r2@,
{
}

} // verus!
