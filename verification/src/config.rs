//! Run configuration, resolved once before any worker starts.

use vstd::prelude::*;

verus! {

/// The resolved command-line configuration.
pub struct ArgParser {
    /// Path of the alignment file with the reads to analyze.
    pub bam: String,
    /// Path of the region list with the windows to analyze.
    pub bed: String,
    /// Path of the output table.
    pub out: String,
    /// Minimum mapping quality of reads to consider.
    pub mapq: u8,
    /// Alignments with a flag matching this mask are ignored.
    pub mapflag: u16,
    /// K-mer size of the featurization path.
    pub kmer: usize,
    /// Number of worker threads.
    pub threads: usize,
    /// Verbose logging.
    pub debug: bool,
    /// Buffer added around each region before analysis.
    pub buffer: u64,
}

impl ArgParser {
    /// Validates the probed filesystem facts about the two input paths:
    /// the configuration is acceptable exactly when both the alignment
    /// path and the region path exist and are files.
    pub fn validate(
        &self,
        bam_exists: bool,
        bam_is_file: bool,
        bed_exists: bool,
        bed_is_file: bool,
    ) -> (ok: bool)
        ensures
            ok == (bam_exists && bam_is_file && bed_exists && bed_is_file),
    {
        let mut is_ok = true;
        if !bam_exists {
            is_ok = false;
        } else if !bam_is_file {
            is_ok = false;
        }
        if !bed_exists {
            is_ok = false;
        } else if !bed_is_file {
            is_ok = false;
        }
        is_ok
    }
}

} // verus!
