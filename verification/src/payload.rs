//! The payload of the input: everything strictly after the first occurrence
//! of the separator byte `.`. When the separator never occurs, the payload is
//! empty. Bytes up to and including the first separator are an ignored header.

use vstd::prelude::*;

verus! {

/// ASCII `'.'`: the separator between the ignored header and the payload.
pub const SEPARATOR: u8 = 46;

/// The suffix of `s` strictly after the first occurrence of the separator,
/// or the empty sequence when the separator never occurs.
pub open spec fn payload_of(s: Seq<u8>) -> Seq<u8>
    decreases s.len(),
{
    if s.len() == 0 {
        Seq::empty()
    } else if s.first() == SEPARATOR {
        s.drop_first()
    } else {
        payload_of(s.drop_first())
    }
}

/// Dropping a separator-free prefix does not change the payload.
proof fn lemma_payload_skip(s: Seq<u8>, i: int)
    requires
        0 <= i <= s.len(),
        forall|j: int| 0 <= j < i ==> s[j] != SEPARATOR,
    ensures
        payload_of(s) == payload_of(s.skip(i)),
    decreases i,
{
    if i > 0 {
        assert(s.first() != SEPARATOR);
        lemma_payload_skip(s.drop_first(), i - 1);
        assert(s.drop_first().skip(i - 1) =~= s.skip(i));
    } else {
        assert(s.skip(0) =~= s);
    }
}

/// When the separator never occurs in the input, the payload is empty.
pub proof fn lemma_no_separator_empty_payload(s: Seq<u8>)
    requires
        forall|j: int| 0 <= j < s.len() ==> s[j] != SEPARATOR,
    ensures
        payload_of(s) == Seq::<u8>::empty(),
{
    lemma_payload_skip(s, s.len() as int);
    assert(s.skip(s.len() as int) =~= Seq::<u8>::empty());
}

/// Returns the payload of `input`: the bytes strictly after the first
/// separator, in order, or an empty vector when there is no separator.
pub fn extract_payload(input: &Vec<u8>) -> (payload: Vec<u8>)
    ensures
        payload@ == payload_of(input@),
{
    let n: usize = input.len();
    let mut i: usize = 0;
    while i < n
        invariant
            i <= n,
            n == input@.len(),
            forall|j: int| 0 <= j < i ==> input@[j] != SEPARATOR,
        decreases n - i,
    {
        if input[i] == SEPARATOR {
            let mut payload: Vec<u8> = Vec::new();
            let mut j: usize = i + 1;
            while j < n
                invariant
                    i < n,
                    i + 1 <= j <= n,
                    n == input@.len(),
                    payload@ == input@.subrange(i + 1, j as int),
                decreases n - j,
            {
                proof {
                    assert(input@.subrange(i + 1, j + 1) =~= input@.subrange(i + 1, j as int).push(
                        input@[j as int],
                    ));
                }
                payload.push(input[j]);
                j = j + 1;
            }
            proof {
                lemma_payload_skip(input@, i as int);
                assert(input@.skip(i as int).first() == input@[i as int]);
                assert(input@.skip(i as int).drop_first() =~= input@.subrange(i + 1, n as int));
            }
            return payload;
        }
        i = i + 1;
    }
    proof {
        lemma_payload_skip(input@, n as int);
        assert(input@.skip(n as int) =~= Seq::<u8>::empty());
    }
    Vec::new()
}

} // verus!
