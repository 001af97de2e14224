//! Base64 with padding: how the bytes of a file travel inside a text.

use crate::text::ascii_text;
use vstd::prelude::*;

verus! {

/// The character that pads the last group.
pub const PAD: u8 = 61;

/// The character for a value of six bits: `A` to `Z`, `a` to `z`, `0` to
/// `9`, then `+` and `/`.
pub open spec fn symbol_of(value: nat) -> u8 {
    if value < 26 {
        (65 + value) as u8
    } else if value < 52 {
        (97 + (value - 26)) as u8
    } else if value < 62 {
        (48 + (value - 52)) as u8
    } else if value == 62 {
        43
    } else {
        47
    }
}

/// The four characters for a group of one, two or three bytes: the bits of
/// the bytes, six at a time, and padding in place of what is missing.
pub open spec fn group_of(group: Seq<u8>) -> Seq<u8> {
    let b1 = group[0] as nat;
    let b2 = if group.len() > 1 {
        group[1] as nat
    } else {
        0
    };
    let b3 = if group.len() > 2 {
        group[2] as nat
    } else {
        0
    };
    seq![
        symbol_of(b1 / 4),
        symbol_of((b1 % 4) * 16 + b2 / 16),
        if group.len() > 1 {
            symbol_of((b2 % 16) * 4 + b3 / 64)
        } else {
            PAD
        },
        if group.len() > 2 {
            symbol_of(b3 % 64)
        } else {
            PAD
        },
    ]
}

/// The Base64 form of `input`, as ASCII: four characters for every three
/// bytes, the last group padded.
pub open spec fn encoded(input: Seq<u8>) -> Seq<u8>
    decreases input.len(),
{
    if input.len() == 0 {
        Seq::<u8>::empty()
    } else if input.len() <= 3 {
        group_of(input)
    } else {
        group_of(input.subrange(0, 3)) + encoded(input.subrange(3, input.len() as int))
    }
}

/// The characters of ASCII bytes.
pub open spec fn as_chars(bytes: Seq<u8>) -> Seq<char> {
    Seq::new(bytes.len(), |i: int| bytes[i] as char)
}

fn symbol(value: u8) -> (c: u8)
    requires
        value < 64,
    ensures
        c == symbol_of(value as nat),
        c < 128,
{
    if value < 26 {
        65 + value
    } else if value < 52 {
        97 + (value - 26)
    } else if value < 62 {
        48 + (value - 52)
    } else if value == 62 {
        43
    } else {
        47
    }
}

/// The Base64 form that begins at `from` is what is still to come.
proof fn lemma_encoded_step(input: Seq<u8>, from: int)
    requires
        0 <= from < input.len(),
    ensures
        encoded(input.subrange(from, input.len() as int)) == if from + 3 < input.len() {
            group_of(input.subrange(from, from + 3)) + encoded(
                input.subrange(from + 3, input.len() as int),
            )
        } else {
            group_of(input.subrange(from, input.len() as int))
        },
{
    let tail = input.subrange(from, input.len() as int);
    if from + 3 < input.len() {
        assert(tail.subrange(0, 3) =~= input.subrange(from, from + 3));
        assert(tail.subrange(3, tail.len() as int) =~= input.subrange(
            from + 3,
            input.len() as int,
        ));
    }
}

/// Encodes `input` in Base64, with padding.
pub fn encode(input: &[u8]) -> (res: String)
    ensures
        res@ == as_chars(encoded(input@)),
{
    let n = input.len();
    let mut out: Vec<u8> = Vec::new();
    let mut i: usize = 0;
    proof {
        assert(input@.subrange(0, n as int) =~= input@);
    }
    while i < n
        invariant
            n == input@.len(),
            i <= n,
            i < n ==> out@ + encoded(input@.subrange(i as int, n as int)) == encoded(input@),
            i >= n ==> out@ == encoded(input@),
            forall|k: int| 0 <= k < out@.len() ==> out@[k] < 128,
        decreases n - i,
    {
        let ghost before = out@;
        let ghost group = if i + 3 < n {
            input@.subrange(i as int, i + 3)
        } else {
            input@.subrange(i as int, n as int)
        };
        let b1 = input[i];
        let b2 = if n - i > 1 {
            input[i + 1]
        } else {
            0
        };
        let b3 = if n - i > 2 {
            input[i + 2]
        } else {
            0
        };
        out.push(symbol(b1 / 4));
        out.push(symbol((b1 % 4) * 16 + b2 / 16));
        if n - i > 1 {
            out.push(symbol((b2 % 16) * 4 + b3 / 64));
        } else {
            out.push(PAD);
        }
        if n - i > 2 {
            out.push(symbol(b3 % 64));
        } else {
            out.push(PAD);
        }
        proof {
            lemma_encoded_step(input@, i as int);
            assert(out@ =~= before + group_of(group));
            if i + 3 < n {
                assert(before + (group_of(group) + encoded(input@.subrange(i + 3, n as int)))
                    =~= out@ + encoded(input@.subrange(i + 3, n as int)));
            } else if n - i == 3 {
                assert(input@.subrange(i as int, i + 3) =~= input@.subrange(i as int, n as int));
            }
        }
        if n - i > 3 {
            i += 3;
        } else {
            i = n;
        }
    }
    ascii_text(out)
}

} // verus!
