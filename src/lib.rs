pub mod cmu;
pub mod dictionary;
pub mod enumerate;
pub mod fetch;
pub mod meter;
pub mod search;
pub mod sentence;
pub mod stress;

pub use cmu::{cmu_dict_from_text, process_cmu_entry, MalformedEntry, Word};
pub use dictionary::Dictionary;
pub use enumerate::{enumerate, Enumeration};
pub use meter::{trochaic_tetrameter, LengthMismatch, PositionClass};
pub use search::{search, SearchError, SearchOutcome};
pub use sentence::Sentence;
pub use stress::{Pronunciation, Syllable};
pub use fetch::{next_fetch_action, FetchAction};
