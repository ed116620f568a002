//! Model configuration: task, input contract and class table.
use vstd::prelude::*;

verus! {

/// The kind of prediction a model makes.
#[derive(Debug, Clone, Copy, PartialEq, Eq, Structural)]
pub enum TaskType {
    Segmentation,
    Detection,
    Classification,
    ChangeDetection,
}

/// The input tensor a model expects.
#[derive(Debug, Clone, Copy, PartialEq, Eq, Structural)]
pub struct InputSpec {
    pub channels: usize,
    pub height: usize,
    pub width: usize,
    pub imagenet_normalize: bool,
}

/// One class of a model's output.
#[derive(Debug, Clone)]
pub struct ClassDef {
    pub id: u8,
    pub name: String,
    pub color: [u8; 3],
}

/// A model's configuration.  The confidence threshold, a float, travels beside it.
#[derive(Debug, Clone)]
pub struct ModelConfig {
    pub name: String,
    pub version: String,
    pub task: TaskType,
    pub input: InputSpec,
    pub classes: Vec<ClassDef>,
    pub model_path: Option<String>,
}

} // verus!
