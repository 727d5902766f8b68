//! Configuration values of the recognition stage.
use std::path::PathBuf;
use vstd::prelude::*;

verus! {

#[verifier::external_type_specification]
#[verifier::external_body]
pub struct ExPathBuf(PathBuf);

/// Relies on `PathBuf::clone`, which the derived `Clone` of `RecConfig` calls;
/// nothing is claimed of the copy.
pub assume_specification[ <PathBuf as Clone>::clone ](p: &PathBuf) -> PathBuf;

#[derive(Clone, Copy, Debug, PartialEq, Eq, Structural)]
pub enum LangRec {
    Ch,
}

#[derive(Clone, Copy, Debug, PartialEq, Eq, Structural)]
pub enum OcrVersion {
    PpOcrV5,
}

#[derive(Clone, Copy, Debug, PartialEq, Eq, Structural)]
pub enum EngineType {
    OnnxRuntime,
}

#[derive(Clone, Copy, Debug, PartialEq, Eq, Structural)]
pub enum ModelType {
    Mobile,
}

#[derive(Clone, Copy, Debug, PartialEq, Eq, Structural)]
pub enum TaskType {
    Det,
    Cls,
    Rec,
}

/// Thread and memory settings handed to the inference engine.
#[derive(Clone, Debug)]
pub struct EngineConfig {
    pub intra_op_num_threads: i32,
    pub inter_op_num_threads: i32,
    pub enable_cpu_mem_arena: bool,
}

impl EngineConfig {
    /// Settings for `num_threads` intra-op threads (the number of CPUs the
    /// caller found, or 4 when it found none), one inter-op thread, and the
    /// memory arena enabled.
    pub fn with_threads(num_threads: i32) -> (r: Self)
        ensures
            r.intra_op_num_threads == num_threads,
            r.inter_op_num_threads == 1,
            r.enable_cpu_mem_arena,
    {
        EngineConfig {
            intra_op_num_threads: num_threads,
            inter_op_num_threads: 1,
            enable_cpu_mem_arena: true,
        }
    }
}

/// Settings of the recognition model.
#[derive(Clone, Debug)]
pub struct RecConfig {
    pub engine_type: EngineType,
    pub lang_type: LangRec,
    pub model_type: ModelType,
    pub ocr_version: OcrVersion,
    pub task_type: TaskType,
    pub model_path: PathBuf,
    pub rec_keys_path: Option<PathBuf>,
    pub rec_img_shape: [i32; 3],
    pub rec_batch_num: i32,
    pub engine_cfg: EngineConfig,
}

impl RecConfig {
    /// The PP-OCRv5 mobile Chinese recogniser: input images of 3 x 48 x 320,
    /// batches of 6, keys read from the model itself.
    pub fn ppv5(model_path: PathBuf, engine_cfg: EngineConfig) -> (r: Self)
        ensures
            r.engine_type == EngineType::OnnxRuntime,
            r.lang_type == LangRec::Ch,
            r.model_type == ModelType::Mobile,
            r.ocr_version == OcrVersion::PpOcrV5,
            r.task_type == TaskType::Rec,
            r.model_path == model_path,
            r.rec_keys_path.is_none(),
            r.rec_img_shape@ == seq![3i32, 48i32, 320i32],
            r.rec_batch_num == 6,
            r.engine_cfg == engine_cfg,
    {
        RecConfig {
            engine_type: EngineType::OnnxRuntime,
            lang_type: LangRec::Ch,
            model_type: ModelType::Mobile,
            ocr_version: OcrVersion::PpOcrV5,
            task_type: TaskType::Rec,
            model_path,
            rec_keys_path: None,
            rec_img_shape: [3, 48, 320],
            rec_batch_num: 6,
            engine_cfg,
        }
    }
}

} // verus!
