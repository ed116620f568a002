//! Decisions of the ONNX inference engine: where the runtime library comes from,
//! which parser reads a model's output, and how an output tensor's shape is read.
//! Loading the runtime and running the session are I/O and stay with the caller.
use vstd::prelude::*;
use crate::model::TaskType;

verus! {

/// Errors from ONNX inference that the engine's own logic raises.
#[derive(Debug, Clone, PartialEq, Eq)]
pub enum OnnxError {
    /// The model file does not exist.
    ModelNotFound(String),
    /// The ONNX Runtime shared library could not be found.
    RuntimeNotFound(String),
    /// The output tensor has a shape the engine cannot read; the shape is attached.
    OutputShape(Vec<i64>),
}

/// What the `ORT_DYLIB_PATH` variable holds, as far as choosing the runtime goes.
#[derive(Debug, Clone, Copy, PartialEq, Eq, Structural)]
pub enum RuntimeOverride {
    /// The variable is not set.
    Unset,
    /// The variable is set to the empty string.
    Empty,
    /// The variable names a path that exists.
    Existing,
    /// The variable names a path that does not exist.
    Missing,
}

/// Where the runtime library is taken from.
#[derive(Debug, Clone, Copy, PartialEq, Eq, Structural)]
pub enum RuntimeChoice {
    /// `ORT_DYLIB_PATH` stands as it is.
    FromEnvironment,
    /// `ORT_DYLIB_PATH` is to be set to the candidate path with this index.
    Candidate(usize),
}

/// Why no runtime library can be used.
#[derive(Debug, Clone, Copy, PartialEq, Eq, Structural)]
pub enum RuntimeProblem {
    /// `ORT_DYLIB_PATH` points to a missing file.
    MissingOverride,
    /// No candidate path exists.
    NotFound,
}

/// The places probed, in order, for the ONNX Runtime shared library.
pub fn runtime_candidates() -> (r: Vec<&'static str>)
    ensures
        r@.len() == 8,
        r@[0]@ == "/lib64/libonnxruntime.so"@,
        r@[1]@ == "/lib64/libonnxruntime.so.1"@,
        r@[2]@ == "/usr/lib64/libonnxruntime.so"@,
        r@[3]@ == "/usr/lib64/libonnxruntime.so.1"@,
        r@[4]@ == "/usr/lib/x86_64-linux-gnu/libonnxruntime.so"@,
        r@[5]@ == "/usr/lib/x86_64-linux-gnu/libonnxruntime.so.1"@,
        r@[6]@ == "/usr/local/lib/libonnxruntime.so"@,
        r@[7]@ == "/usr/local/lib/libonnxruntime.so.1"@,
{
    let mut r: Vec<&'static str> = Vec::new();
    r.push("/lib64/libonnxruntime.so");
    r.push("/lib64/libonnxruntime.so.1");
    r.push("/usr/lib64/libonnxruntime.so");
    r.push("/usr/lib64/libonnxruntime.so.1");
    r.push("/usr/lib/x86_64-linux-gnu/libonnxruntime.so");
    r.push("/usr/lib/x86_64-linux-gnu/libonnxruntime.so.1");
    r.push("/usr/local/lib/libonnxruntime.so");
    r.push("/usr/local/lib/libonnxruntime.so.1");
    r
}

/// Decide where the ONNX Runtime library comes from: an explicit `ORT_DYLIB_PATH`
/// wins (empty means "leave it to the loader"); otherwise the first candidate
/// path that exists (`exists[i]` for `runtime_candidates()[i]`).
pub fn choose_runtime(ovr: RuntimeOverride, exists: &Vec<bool>) -> (r: Result<
    RuntimeChoice,
    RuntimeProblem,
>)
    ensures
        ovr == RuntimeOverride::Empty || ovr == RuntimeOverride::Existing ==> r == Ok::<
            RuntimeChoice,
            RuntimeProblem,
        >(RuntimeChoice::FromEnvironment),
        ovr == RuntimeOverride::Missing ==> r == Err::<RuntimeChoice, RuntimeProblem>(
            RuntimeProblem::MissingOverride,
        ),
        ovr == RuntimeOverride::Unset ==> match r {
            Ok(RuntimeChoice::Candidate(i)) => i < exists@.len() && exists@[i as int] && forall|j: int|
                0 <= j < i ==> !exists@[j],
            Ok(RuntimeChoice::FromEnvironment) => false,
            Err(p) => p == RuntimeProblem::NotFound && forall|j: int|
                0 <= j < exists@.len() ==> !exists@[j],
        },
{
    match ovr {
        RuntimeOverride::Empty | RuntimeOverride::Existing => Ok(RuntimeChoice::FromEnvironment),
        RuntimeOverride::Missing => Err(RuntimeProblem::MissingOverride),
        RuntimeOverride::Unset => {
            let mut i: usize = 0;
            while i < exists.len()
                invariant
                    ovr == RuntimeOverride::Unset,
                    i <= exists@.len(),
                    forall|j: int| 0 <= j < i ==> !exists@[j],
                decreases exists@.len() - i,
            {
                if exists[i] {
                    return Ok(RuntimeChoice::Candidate(i));
                }
                i = i + 1;
            }
            Err(RuntimeProblem::NotFound)
        },
    }
}

/// Which parser reads a model's output.
#[derive(Debug, Clone, Copy, PartialEq, Eq, Structural)]
pub enum OutputParser {
    /// A class mask and a probability map.
    Segmentation,
    /// Boxes with a confidence and a class.
    Detection,
    /// One class for the whole input.
    Classification,
}

/// The output parser for a task: change detection reads its output as a segmentation.
pub fn output_parser(task: TaskType) -> (p: OutputParser)
    ensures
        p == (match task {
            TaskType::Segmentation | TaskType::ChangeDetection => OutputParser::Segmentation,
            TaskType::Detection => OutputParser::Detection,
            TaskType::Classification => OutputParser::Classification,
        }),
{
    match task {
        TaskType::Segmentation | TaskType::ChangeDetection => OutputParser::Segmentation,
        TaskType::Detection => OutputParser::Detection,
        TaskType::Classification => OutputParser::Classification,
    }
}

/// How a segmentation output tensor is to be read.
#[derive(Debug, Clone, Copy, PartialEq, Eq, Structural)]
pub enum SegmentationOutput {
    /// One channel: a foreground probability per pixel.
    Probability { height: usize, width: usize },
    /// `classes` channels of per-class logits.
    Logits { classes: usize, height: usize, width: usize },
}

/// The shape as a vector.
fn shape_vec(out_shape: &[i64]) -> (v: Vec<i64>)
    ensures
        v@ == out_shape@,
{
    let mut v: Vec<i64> = Vec::new();
    let mut i: usize = 0;
    while i < out_shape.len()
        invariant
            i <= out_shape@.len(),
            v@ == out_shape@.take(i as int),
        decreases out_shape@.len() - i,
    {
        v.push(out_shape[i]);
        i = i + 1;
        assert(v@ == out_shape@.take(i as int));
    }
    assert(out_shape@.take(out_shape@.len() as int) == out_shape@);
    v
}

/// Read the shape of a segmentation output: `[N, K, H, W]` or `[N, H, W]`
/// (one channel).  With at most one channel it is a probability map, else logits.
/// Lengths are taken `as usize`, as the tensor reports them.
pub fn segmentation_output(out_shape: &[i64]) -> (r: Result<SegmentationOutput, OnnxError>)
    ensures
        out_shape@.len() == 4 ==> r == Ok::<SegmentationOutput, OnnxError>(
            if out_shape@[1] as usize <= 1 {
                SegmentationOutput::Probability {
                    height: out_shape@[2] as usize,
                    width: out_shape@[3] as usize,
                }
            } else {
                SegmentationOutput::Logits {
                    classes: out_shape@[1] as usize,
                    height: out_shape@[2] as usize,
                    width: out_shape@[3] as usize,
                }
            },
        ),
        out_shape@.len() == 3 ==> r == Ok::<SegmentationOutput, OnnxError>(
            SegmentationOutput::Probability {
                height: out_shape@[1] as usize,
                width: out_shape@[2] as usize,
            },
        ),
        out_shape@.len() != 4 && out_shape@.len() != 3 ==> (r matches Err(OnnxError::OutputShape(v))
            && v@ == out_shape@),
{
    if out_shape.len() == 4 {
        let channels = out_shape[1] as usize;
        let height = out_shape[2] as usize;
        let width = out_shape[3] as usize;
        if channels <= 1 {
            Ok(SegmentationOutput::Probability { height, width })
        } else {
            Ok(SegmentationOutput::Logits { classes: channels, height, width })
        }
    } else if out_shape.len() == 3 {
        Ok(SegmentationOutput::Probability {
            height: out_shape[1] as usize,
            width: out_shape[2] as usize,
        })
    } else {
        Err(OnnxError::OutputShape(shape_vec(out_shape)))
    }
}

/// Read the shape of a detection output `[N, D, S]`: `D` detections of `S >= 6`
/// values each (x1, y1, x2, y2, confidence, class id, ...).  Returns `(D, S)`.
pub fn detection_output(out_shape: &[i64]) -> (r: Result<(usize, usize), OnnxError>)
    ensures
        out_shape@.len() == 3 && out_shape@[2] as usize >= 6 ==> r == Ok::<(usize, usize), OnnxError>(
            (out_shape@[1] as usize, out_shape@[2] as usize),
        ),
        !(out_shape@.len() == 3 && out_shape@[2] as usize >= 6) ==> (r matches Err(
            OnnxError::OutputShape(v),
        ) && v@ == out_shape@),
{
    if out_shape.len() != 3 {
        return Err(OnnxError::OutputShape(shape_vec(out_shape)));
    }
    let count = out_shape[1] as usize;
    let stride = out_shape[2] as usize;
    if stride < 6 {
        return Err(OnnxError::OutputShape(shape_vec(out_shape)));
    }
    Ok((count, stride))
}

} // verus!
