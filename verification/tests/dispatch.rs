use spikenorm::dispatch::{converter, conversion_tasks, BatchError, ConversionTask, SampleBatch};
use spikenorm::factors::scaling_factors;
use spikenorm::scale::{join_scales, Scale};

fn names(list: &[&str]) -> Vec<String> {
    list.iter().map(|s| String::from(*s)).collect()
}

fn batch(inputs: &[&str], outputs: &[&str]) -> SampleBatch {
    SampleBatch::new(names(inputs), names(outputs)).unwrap()
}

fn scales(values: &[f64]) -> Vec<Scale> {
    values.iter().map(|v| Scale::new(v.to_bits(), &v.to_string()).unwrap()).collect()
}

#[test]
fn tasks_pair_each_input_with_its_output_and_factor() {
    let samples = batch(&["a.bam", "b.bam", "c.bam"], &["a.bw", "b.bw", "c.bw"]);
    let tasks = conversion_tasks(&samples, &scales(&[0.5, 0.25, 1.0]), 2);
    assert_eq!(
        tasks,
        vec![
            ConversionTask {
                input: String::from("a.bam"),
                output: String::from("a.bw"),
                factor: 0.5f64.to_bits(),
                scale: String::from("0.5"),
                budget: 2,
            },
            ConversionTask {
                input: String::from("b.bam"),
                output: String::from("b.bw"),
                factor: 0.25f64.to_bits(),
                scale: String::from("0.25"),
                budget: 2,
            },
            ConversionTask {
                input: String::from("c.bam"),
                output: String::from("c.bw"),
                factor: 1.0f64.to_bits(),
                scale: String::from("1"),
                budget: 2,
            },
        ]
    );
}

#[test]
fn tasks_follow_from_counts_step_by_step() {
    let samples = batch(&["a.bam", "b.bam", "c.bam"], &["a.bw", "b.bw", "c.bw"]);
    let counts: Vec<u64> = [10.0f64, 20.0, 5.0].iter().map(|c| c.to_bits()).collect();
    let factors = scaling_factors(&Some(counts), samples.len()).unwrap();
    let numerals: Vec<String> = factors.iter().map(|b| f64::from_bits(*b).to_string()).collect();
    let joined = join_scales(&factors, &numerals).unwrap();
    let tasks = conversion_tasks(&samples, &joined, 2);
    let shown: Vec<&str> = tasks.iter().map(|task| task.scale.as_str()).collect();
    assert_eq!(shown, vec!["0.5", "0.25", "1"]);
    let found: Vec<f64> = tasks.iter().map(|task| f64::from_bits(task.factor)).collect();
    assert_eq!(found, vec![0.5, 0.25, 1.0]);
}

#[test]
fn there_is_one_task_for_each_sample() {
    for samples in 1..20usize {
        let inputs: Vec<String> = (0..samples).map(|i| format!("in{}", i)).collect();
        let outputs: Vec<String> = (0..samples).map(|i| format!("out{}", i)).collect();
        let paired = SampleBatch::new(inputs.clone(), outputs.clone()).unwrap();
        assert_eq!(paired.len(), samples);
        let tasks = conversion_tasks(&paired, &scales(&vec![1.0; samples]), 3);
        assert_eq!(tasks.len(), samples);
        for (i, task) in tasks.iter().enumerate() {
            assert_eq!(task.input, inputs[i]);
            assert_eq!(task.output, outputs[i]);
            assert_eq!(task.factor, 1.0f64.to_bits());
            assert_eq!(task.scale, "1");
            assert_eq!(task.budget, 3);
        }
    }
}

#[test]
fn a_batch_without_samples_is_refused() {
    assert_eq!(SampleBatch::new(Vec::new(), Vec::new()).err(), Some(BatchError::NoSamples));
    assert_eq!(SampleBatch::new(Vec::new(), names(&["a.bw"])).err(), Some(BatchError::NoSamples));
}

#[test]
fn outputs_must_pair_with_inputs() {
    let inputs = names(&["a.bam", "b.bam"]);
    assert_eq!(
        SampleBatch::new(inputs.clone(), names(&["a.bw"])).err(),
        Some(BatchError::OutputMismatch { inputs: 2, outputs: 1 })
    );
    assert_eq!(
        SampleBatch::new(inputs.clone(), names(&["a.bw", "b.bw", "c.bw"])).err(),
        Some(BatchError::OutputMismatch { inputs: 2, outputs: 3 })
    );
    assert_eq!(
        SampleBatch::new(inputs, Vec::new()).err(),
        Some(BatchError::OutputMismatch { inputs: 2, outputs: 0 })
    );
}

#[test]
fn the_arguments_of_a_conversion() {
    let task = ConversionTask {
        input: String::from("sample1.bam"),
        output: String::from("out/sample1.bw"),
        factor: 0.25f64.to_bits(),
        scale: String::from("0.25"),
        budget: 2,
    };
    assert_eq!(
        task.arguments(),
        vec![
            "-b",
            "sample1.bam",
            "--scaleFactor",
            "0.25",
            "-bs",
            "10",
            "-of",
            "bigwig",
            "-p",
            "2",
            "-o",
            "out/sample1.bw"
        ]
    );
}

#[test]
fn the_arguments_carry_budgets_of_several_digits() {
    let samples = batch(&["x"], &["y"]);
    let tasks = conversion_tasks(&samples, &scales(&[1.0]), 128);
    let arguments = tasks[0].arguments();
    assert_eq!(arguments.len(), 12);
    assert_eq!(arguments[1], "x");
    assert_eq!(arguments[3], "1");
    assert_eq!(arguments[9], "128");
    assert_eq!(arguments[11], "y");
}

#[test]
fn the_converter_is_bam_coverage() {
    assert_eq!(converter(), "bamCoverage");
}
