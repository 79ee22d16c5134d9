//! Data types of the explorer and their binary encodings.

pub mod color;
pub mod fx;
pub mod game_id;
pub mod game_info;
pub mod game_refs;
pub mod keys;
pub mod lichess;
pub mod lichess_merge;
pub mod lichess_proofs;
pub mod lichess_sums;
pub mod month;
pub mod personal;
pub mod personal_merge;
pub mod personal_proofs;
pub mod rating_group;
pub mod reader;
pub mod speed;
pub mod stats;
pub mod status;
pub mod uci;
pub mod uint;
pub mod user;

pub use color::{ByColor, Color, Outcome};
pub use game_id::{GameId, InvalidGameId};
pub use game_info::{already_indexed, GameInfo, GameInfoPlayer};
pub use keys::{PersonalKey, PersonalKeyBuilder, PersonalKeyPrefix};
pub use lichess::{LichessEntry, LichessGroup, LichessHeader};
pub use lichess_merge::merge_operands;
pub use month::{InvalidMonth, Month};
pub use personal::{PersonalEntry, PersonalGroup, PersonalHeader};
pub use rating_group::{ByRatingGroup, RatingGroup};
pub use reader::{ByteReader, CodecError};
pub use speed::{ByMode, BySpeed, Mode, Speed};
pub use stats::Stats;
pub use status::PersonalStatus;
pub use uci::{read_uci, write_uci, Role, UciMove};
pub use uint::{read_uint, write_uint};
pub use user::UserId;
