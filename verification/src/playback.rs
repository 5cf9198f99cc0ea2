//! Helpers of the sources and sinks of samples: laying a one-channel block
//! out for several channels, and playing a recorded clip over and over.

use vstd::prelude::*;

verus! {

/// The sample that the callback writes at position `i`: the sample `i`
/// places behind the cursor, or `silence` past the end of the clip.
pub open spec fn clip_sample<T>(clip: Seq<T>, index: int, silence: T, i: int) -> T {
    if index + i < clip.len() {
        clip[index + i]
    } else {
        silence
    }
}

/// Writes every sample of `output` from `clip`, starting at the cursor
/// `index`, with `silence` once the clip is through, and returns the cursor
/// for the next call: moved on by what was played, or back at the start
/// once the end of the clip was reached.
pub fn fill_from_clip<T: Copy>(output: &mut [T], clip: &[T], index: usize, silence: T) -> (next:
    usize)
    ensures
        final(output)@.len() == old(output)@.len(),
        forall|i: int|
            0 <= i < old(output)@.len() ==> final(output)@[i] == clip_sample(
                clip@,
                index as int,
                silence,
                i,
            ),
        next == (if index + old(output)@.len() >= clip@.len() {
            0
        } else {
            index + old(output)@.len()
        }),
{
    let asked: usize = output.len();
    let available: usize = clip.len();
    let mut cursor: usize = index;
    let mut i: usize = 0;
    while i < asked
        invariant
            i <= asked,
            asked == output@.len(),
            output@.len() == old(output)@.len(),
            available == clip@.len(),
            cursor == (if index + i <= available {
                index + i
            } else if index <= available {
                available as int
            } else {
                index as int
            }),
            forall|j: int|
                0 <= j < i ==> output@[j] == clip_sample(clip@, index as int, silence, j),
        decreases asked - i,
    {
        if cursor < available {
            output[i] = clip[cursor];
            cursor += 1;
        } else {
            output[i] = silence;
        }
        i += 1;
    }
    if cursor >= available {
        cursor = 0;
    }
    cursor
}

/// The block that carries each sample of `mono` once per channel, the
/// channels of one sample next to each other.
pub open spec fn spread<T>(mono: Seq<T>, channels: nat) -> Seq<T> {
    Seq::new(mono.len() * channels, |i: int| mono[i / channels as int])
}

/// Lays a one-channel block out for `channels` channels.
pub fn spread_channels<T: Copy>(mono: &[T], channels: usize) -> (block: Vec<T>)
    ensures
        block@ == spread(mono@, channels as nat),
{
    let mut block: Vec<T> = Vec::new();
    let mut i: usize = 0;
    assert(0 == 0 * channels) by (nonlinear_arith);
    while i < mono.len()
        invariant
            i <= mono@.len(),
            block@.len() == i * channels,
            forall|j: int| 0 <= j < block@.len() ==> block@[j] == mono@[j / channels as int],
        decreases mono@.len() - i,
    {
        let mut c: usize = 0;
        while c < channels
            invariant
                i < mono@.len(),
                c <= channels,
                block@.len() == i * channels + c,
                forall|j: int| 0 <= j < block@.len() ==> block@[j] == mono@[j / channels as int],
            decreases channels - c,
        {
            proof {
                let at = i * channels + c;
                assert(at / channels as int == i) by (nonlinear_arith)
                    requires
                        at == i * channels + c,
                        0 <= c < channels,
                        0 <= i,
                ;
            }
            block.push(mono[i]);
            c += 1;
        }
        assert((i + 1) * channels == i * channels + channels) by (nonlinear_arith);
        i += 1;
    }
    assert(block@ =~= spread(mono@, channels as nat));
    block
}

} // verus!
