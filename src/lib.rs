//! Parsing, score normalization and ranking of university-admission
//! publications.
//!
//! A publication is a tab-separated table whose rows are classified by their
//! shape into school headers, faculty headers, subject declarations and
//! student rows (`publication`). A calibration file gives, per subject,
//! equalized bounds and anchor points (`calibration`). The normalizer maps
//! every scaled score onto the equalized axis by piecewise-linear
//! interpolation (`normalize`), and the ranker orders students by overall
//! score (`ranking`). Scores are fixed-point integers (`decimal`).
pub mod calibration;
pub mod decimal;
pub mod export;
pub mod format;
pub mod normalize;
pub mod publication;
pub mod ranking;
pub mod records;
pub mod student_record;
pub mod subject;
pub mod text;
pub mod latex;
