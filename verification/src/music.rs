use vstd::prelude::*;

verus! {

/// A piece of music: for each channel, the sequence of sound indices it plays.
pub struct Music {
    pub seqs: Vec<Vec<u32>>,
}

/// `seqs` cut or filled with empty sequences to `num_channels` channels.
pub open spec fn fit_channels(seqs: Seq<Seq<u32>>, num_channels: nat) -> Seq<Seq<u32>> {
    Seq::new(num_channels, |i: int| if i < seqs.len() { seqs[i] } else { Seq::empty() })
}

/// The sequences of the channels as mathematical sequences.
pub open spec fn seqs_view(seqs: Seq<Vec<u32>>) -> Seq<Seq<u32>> {
    seqs.map_values(|v: Vec<u32>| v@)
}

impl Music {
    /// Music with no channel sequences.
    pub fn new() -> (r: Music)
        ensures
            r.seqs@.len() == 0,
    {
        Music { seqs: Vec::new() }
    }

    /// Takes the channel sequences, one for each of the `num_channels` channels: extra
    /// sequences are dropped and missing ones are empty.
    pub fn set(&mut self, seqs: &Vec<Vec<u32>>, num_channels: usize)
        ensures
            seqs_view(final(self).seqs@) == fit_channels(seqs_view(seqs@), num_channels as nat),
    {
        let mut out: Vec<Vec<u32>> = Vec::new();
        let mut i: usize = 0;
        while i < num_channels
            invariant
                i <= num_channels,
                out@.len() == i,
                forall|k: int| 0 <= k < i ==> (#[trigger] out@[k])@ == fit_channels(seqs_view(seqs@), num_channels as nat)[k],
            decreases num_channels - i,
        {
            if i < seqs.len() {
                let mut copy: Vec<u32> = Vec::new();
                let src = &seqs[i];
                let mut j: usize = 0;
                while j < src.len()
                    invariant
                        j <= src@.len(),
                        copy@ == src@.take(j as int),
                    decreases src@.len() - j,
                {
                    copy.push(src[j]);
                    j = j + 1;
                    assert(copy@ =~= src@.take(j as int));
                }
                assert(copy@ =~= src@);
                out.push(copy);
            } else {
                out.push(Vec::new());
            }
            i = i + 1;
        }
        assert(seqs_view(out@) =~= fit_channels(seqs_view(seqs@), num_channels as nat));
        self.seqs = out;
    }
}

} // verus!
