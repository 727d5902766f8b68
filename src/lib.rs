//! Integer core of an OCR pipeline: binary masks and their dilation,
//! connected components and their boundaries, border tracing and contour
//! simplification, the ordering and selection of detection candidates, the
//! batching of text-line crops, and the token selection, word grouping and
//! word-box units of a CTC-decoded text line.
use vstd::prelude::*;

pub mod batching;
pub mod cal_rec_boxes;
pub mod candidates;
pub mod contours;
pub mod ctc;
pub mod labels;
pub mod raster;
pub mod types;

verus! {

/// Paths of the three model files that an OCR pipeline loads.
#[derive(Debug, Clone)]
pub struct RapidOCRConfig {
    pub det_model_path: String,
    pub rec_model_path: String,
    pub dict_path: String,
}

impl Default for RapidOCRConfig {
    fn default() -> (r: Self)
        ensures
            r.det_model_path@.len() == 0,
            r.rec_model_path@.len() == 0,
            r.dict_path@.len() == 0,
    {
        RapidOCRConfig {
            det_model_path: String::new(),
            rec_model_path: String::new(),
            dict_path: String::new(),
        }
    }
}

} // verus!
