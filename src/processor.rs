use vstd::prelude::*;

use crate::buffer::{mix_all_into, AudioData, InterleavedBuffer};
use crate::timing::{MusicalTime, SampleRate};

verus! {

/// The channel counts of a processor. A processor with no input channels is a
/// generator.
#[derive(Clone, Copy, Debug, PartialEq, Eq, Structural)]
pub struct ProcessorConfiguration {
    pub num_input_channels: usize,
    pub num_output_channels: usize,
}

/// What a processor is told about the block it renders; fixed for the block.
#[derive(Clone, Copy, Debug)]
pub struct ProcessingInformation {
    pub sample_rate: SampleRate,
    pub bpm: u32,
    pub block_start: MusicalTime,
    pub block_end: MusicalTime,
}

/// Raised when the buffers handed to a processor do not fit its configuration.
#[derive(Clone, Copy, Debug, PartialEq, Eq, Structural)]
pub enum ProcessingError {
    InvalidBuffers,
}

/// A processor that adds its input, channel by channel, into its output.
#[derive(Clone, Copy, Debug, PartialEq, Eq, Structural)]
pub struct PassThrough {
    num_input_channels: usize,
    num_output_channels: usize,
}

impl PassThrough {
    pub closed spec fn spec_config(&self) -> ProcessorConfiguration {
        ProcessorConfiguration {
            num_input_channels: self.num_input_channels,
            num_output_channels: self.num_output_channels,
        }
    }

    pub fn new(input_channels: usize, output_channels: usize) -> (r: PassThrough)
        ensures
            r.spec_config().num_input_channels == input_channels,
            r.spec_config().num_output_channels == output_channels,
    {
        PassThrough { num_input_channels: input_channels, num_output_channels: output_channels }
    }

    pub fn config(&self) -> (r: ProcessorConfiguration)
        ensures
            r == self.spec_config(),
    {
        ProcessorConfiguration {
            num_input_channels: self.num_input_channels,
            num_output_channels: self.num_output_channels,
        }
    }

    /// Adds `input` into `output`; without an input the output stays as it
    /// is.
    pub fn process_unchecked(
        &self,
        input: Option<&InterleavedBuffer>,
        output: &mut InterleavedBuffer,
        info: ProcessingInformation,
    )
        requires
            old(output).wf(),
            input.is_some() ==> input.unwrap().wf(),
        ensures
            final(output).wf(),
            final(output)@ == match input {
                Some(i) => AudioData { samples: mix_all_into(old(output)@, i@), ..old(output)@ },
                None => old(output)@,
            },
    {
        match input {
            Some(i) => output.mix_from(i),
            None => {},
        }
    }

    /// As `process_unchecked`, after checking that the buffers have the
    /// configured channel counts.
    pub fn process(
        &self,
        input: Option<&InterleavedBuffer>,
        output: &mut InterleavedBuffer,
        info: ProcessingInformation,
    ) -> (r: Result<(), ProcessingError>)
        requires
            old(output).wf(),
            input.is_some() ==> input.unwrap().wf(),
        ensures
            final(output).wf(),
            r.is_ok() <==> (output_fits(self.spec_config(), old(output)@) && input_fits(
                self.spec_config(),
                input,
            )),
            r.is_ok() ==> final(output)@ == match input {
                Some(i) => AudioData { samples: mix_all_into(old(output)@, i@), ..old(output)@ },
                None => old(output)@,
            },
            r.is_err() ==> final(output)@ == old(output)@,
    {
        let fits_input = match input {
            Some(i) => self.num_input_channels == 0 || i.channels() == self.num_input_channels,
            None => self.num_input_channels == 0,
        };
        if output.channels() != self.num_output_channels || !fits_input {
            Err(ProcessingError::InvalidBuffers)
        } else {
            self.process_unchecked(input, output, info);
            Ok(())
        }
    }
}

/// The output buffer has the configured number of output channels.
pub open spec fn output_fits(config: ProcessorConfiguration, output: AudioData) -> bool {
    output.channels == config.num_output_channels
}

/// A processor that takes input is handed one with the configured channel
/// count; one that takes none accepts any input or none.
pub open spec fn input_fits(config: ProcessorConfiguration, input: Option<&InterleavedBuffer>) -> bool {
    match input {
        Some(i) => config.num_input_channels == 0 || i@.channels == config.num_input_channels,
        None => config.num_input_channels == 0,
    }
}

} // verus!
