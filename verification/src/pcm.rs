use vstd::prelude::*;

verus! {

/// Decoded sound: mono 16-bit samples at the playback rate.
#[derive(Clone)]
pub struct PcmData {
    pub samples: Vec<i16>,
}

} // verus!
