//! A compressed posting list for a sparse inverted index: for one sparse
//! dimension, the strictly increasing sequence of document identifiers with a
//! non-zero weight in that dimension, each paired with its weight.
//!
//! Identifier blocks of 128 are delta-compressed with a shared bit width; a
//! tail of fewer than 128 entries stays uncompressed; the last element is
//! cached so that neither `last` nor loading needs to unpack anything but the
//! terminal block. Weights travel as opaque 32-bit values (the caller's
//! IEEE-754 bit patterns); the list stores them verbatim and never computes
//! with them.
//!
//! Beside the posting list lives a small dashboard of active issues, a map
//! from issue codes to records.

pub mod codec;
pub mod posting;
pub mod builder;
pub mod iter;
pub mod serial;
pub mod dashboard;

pub use builder::PostingBuilder;
pub use dashboard::{
    all_issues, clear, solve, solve_by_filter, submit, submit_record, Code, Dashboard, Issue,
    IssueRecord,
};
pub use iter::{Flow, PostingListIterator, PostingVisitor};
pub use posting::{LoadError, PostingElement, PostingList, MAX_POSTING_LEN};

