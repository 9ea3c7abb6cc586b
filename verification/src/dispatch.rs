//! The conversion tasks of a batch, and the command line of each.
//!
//! A batch pairs input files with output files by position. Dispatching it
//! gives one task for each sample, with the sample's scaling factor and its
//! share of the machine's parallel slots; a task's arguments are those of one
//! call of the coverage converter.

use vstd::prelude::*;
use vstd::string::StringExecFns;
use crate::factors::{are_factors, is_factor};
use crate::numeral::{decimal, decimal_text};
use crate::scale::{are_joined, denotes, Scale};

verus! {

/// One call of the coverage converter: a sample's input file, the output file
/// paired with it, its scaling factor as the bit pattern of a binary64 number
/// and as the decimal numeral that is handed to the converter, and the number
/// of processor slots that the call may use.
#[derive(Debug, Clone, PartialEq, Eq)]
pub struct ConversionTask {
    pub input: String,
    pub output: String,
    pub factor: u64,
    pub scale: String,
    pub budget: usize,
}

/// Why input and output files do not make a batch.
#[derive(Debug, Clone, Copy, PartialEq, Eq)]
pub enum BatchError {
    /// No input file is named.
    NoSamples,
    /// The output files are not one for each input file.
    OutputMismatch { inputs: usize, outputs: usize },
}

/// Whether `error` is the reason why the files make no batch. Missing inputs
/// are reported before outputs that do not pair with them.
pub open spec fn is_batch_fault(inputs: Seq<String>, outputs: Seq<String>, error: BatchError) -> bool {
    match error {
        BatchError::NoSamples => inputs.len() == 0,
        BatchError::OutputMismatch { inputs: found, outputs: paired } => {
            &&& inputs.len() > 0
            &&& outputs.len() != inputs.len()
            &&& found == inputs.len()
            &&& paired == outputs.len()
        },
    }
}

/// The samples of one run, in order: at least one input file, and for each
/// input file the output file of the same position.
#[derive(Debug)]
pub struct SampleBatch {
    inputs: Vec<String>,
    outputs: Vec<String>,
}

impl SampleBatch {
    #[verifier::type_invariant]
    spec fn is_paired(self) -> bool {
        self.inputs@.len() > 0 && self.outputs@.len() == self.inputs@.len()
    }

    /// The input files, in the order of the samples.
    pub closed spec fn inputs(self) -> Seq<String> {
        self.inputs@
    }

    /// The output files, in the order of the samples.
    pub closed spec fn outputs(self) -> Seq<String> {
        self.outputs@
    }

    /// Pairs input files with output files by position.
    pub fn new(inputs: Vec<String>, outputs: Vec<String>) -> (result: Result<SampleBatch, BatchError>)
        ensures
            result is Ok <==> inputs@.len() > 0 && outputs@.len() == inputs@.len(),
            result matches Ok(batch) ==> batch.inputs() == inputs@ && batch.outputs() == outputs@,
            result matches Err(error) ==> is_batch_fault(inputs@, outputs@, error),
    {
        if inputs.len() == 0 {
            Err(BatchError::NoSamples)
        } else if outputs.len() != inputs.len() {
            Err(BatchError::OutputMismatch { inputs: inputs.len(), outputs: outputs.len() })
        } else {
            Ok(SampleBatch { inputs, outputs })
        }
    }

    /// The number of samples, which is that of the inputs and of the outputs.
    pub fn len(&self) -> (samples: usize)
        ensures
            samples > 0,
            samples == self.inputs().len(),
            samples == self.outputs().len(),
    {
        proof {
            use_type_invariant(self);
        }
        self.inputs.len()
    }
}

/// Whether `tasks` are the tasks of the batch: one for each sample, in order,
/// each with the input and output of its position, the scaling factor of its
/// sample in both forms, and the budget.
pub open spec fn are_tasks(
    batch: SampleBatch,
    scales: Seq<Scale>,
    budget: usize,
    tasks: Seq<ConversionTask>,
) -> bool {
    &&& tasks.len() == batch.inputs().len()
    &&& forall|i: int|
        #![trigger tasks[i]]
        0 <= i < tasks.len() ==> {
            &&& tasks[i].input@ == batch.inputs()[i]@
            &&& tasks[i].output@ == batch.outputs()[i]@
            &&& tasks[i].factor == scales[i].bits()
            &&& tasks[i].scale@ == scales[i].text()
            &&& denotes(tasks[i].scale@, tasks[i].factor)
            &&& tasks[i].budget == budget
        }
}

/// Makes the conversion tasks of a batch: sample by sample, the input, the
/// output and the scaling factor of the same position, and for each the same
/// share of the machine's parallel slots.
///
/// There are as many scaling factors as samples.
pub fn conversion_tasks(batch: &SampleBatch, scales: &Vec<Scale>, budget: usize) -> (tasks: Vec<
    ConversionTask,
>)
    requires
        scales@.len() == batch.inputs().len(),
    ensures
        are_tasks(*batch, scales@, budget, tasks@),
{
    proof {
        use_type_invariant(batch);
    }
    let mut tasks: Vec<ConversionTask> = Vec::new();
    let mut i: usize = 0;
    while i < batch.inputs.len()
        invariant
            i <= batch.inputs.len(),
            batch.outputs.len() == batch.inputs.len(),
            scales.len() == batch.inputs.len(),
            tasks@.len() == i,
            forall|j: int|
                #![trigger tasks@[j]]
                0 <= j < i ==> {
                    &&& tasks@[j].input@ == batch.inputs@[j]@
                    &&& tasks@[j].output@ == batch.outputs@[j]@
                    &&& tasks@[j].factor == scales@[j].bits()
                    &&& tasks@[j].scale@ == scales@[j].text()
                    &&& denotes(tasks@[j].scale@, tasks@[j].factor)
                    &&& tasks@[j].budget == budget
                },
        decreases batch.inputs.len() - i,
    {
        let factor = scales[i].factor();
        let scale = String::from_str(scales[i].as_str());
        tasks.push(
            ConversionTask {
                input: batch.inputs[i].clone(),
                output: batch.outputs[i].clone(),
                factor,
                scale,
                budget,
            },
        );
        i += 1;
    }
    tasks
}

/// From counts to tasks: where the factors are those of the counts, the
/// scales join them with their numerals, and the tasks are made of the
/// scales, each task carries the scaling factor of its sample, and hands it
/// to the converter as a numeral that denotes it.
pub proof fn lemma_tasks_carry_the_factors(
    batch: SampleBatch,
    counts: Option<Seq<u64>>,
    factors: Seq<u64>,
    numerals: Seq<String>,
    scales: Seq<Scale>,
    budget: usize,
    tasks: Seq<ConversionTask>,
)
    requires
        are_factors(counts, batch.inputs().len(), factors),
        are_joined(factors, numerals, scales),
        are_tasks(batch, scales, budget, tasks),
    ensures
        tasks.len() == batch.inputs().len(),
        forall|i: int|
            #![trigger tasks[i]]
            0 <= i < tasks.len() ==> is_factor(counts, i, tasks[i].factor) && denotes(
                tasks[i].command_line()[3],
                tasks[i].factor,
            ),
{
    assert forall|i: int| #![trigger tasks[i]] 0 <= i < tasks.len() implies is_factor(
        counts,
        i,
        tasks[i].factor,
    ) && denotes(tasks[i].command_line()[3], tasks[i].factor) by {
        assert(is_factor(counts, i, factors[i]));
        assert(scales[i].bits() == factors[i]);
    }
}

/// The name of the coverage converter, as it is looked up on the search path.
pub fn converter() -> (name: &'static str)
    ensures
        name@ == "bamCoverage"@,
{
    "bamCoverage"
}

impl ConversionTask {
    /// The arguments that the converter is called with: the input file, the
    /// scaling factor, a bin size of ten positions, the bigwig format, the
    /// number of processors and the output file.
    pub open spec fn command_line(self) -> Seq<Seq<char>> {
        seq![
            "-b"@,
            self.input@,
            "--scaleFactor"@,
            self.scale@,
            "-bs"@,
            "10"@,
            "-of"@,
            "bigwig"@,
            "-p"@,
            decimal(self.budget as nat),
            "-o"@,
            self.output@,
        ]
    }

    /// Builds the arguments that the converter is called with.
    pub fn arguments(&self) -> (arguments: Vec<String>)
        ensures
            arguments.deep_view() == self.command_line(),
    {
        let mut arguments: Vec<String> = Vec::new();
        arguments.push(String::from_str("-b"));
        arguments.push(self.input.clone());
        arguments.push(String::from_str("--scaleFactor"));
        arguments.push(self.scale.clone());
        arguments.push(String::from_str("-bs"));
        arguments.push(String::from_str("10"));
        arguments.push(String::from_str("-of"));
        arguments.push(String::from_str("bigwig"));
        arguments.push(String::from_str("-p"));
        arguments.push(decimal_text(self.budget));
        arguments.push(String::from_str("-o"));
        arguments.push(self.output.clone());
        assert(arguments.deep_view() =~= self.command_line());
        arguments
    }
}

} // verus!
