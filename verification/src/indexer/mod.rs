//! The decisions of the indexer: which games of a player go into the index,
//! what is written for them, and who may start a run.

pub mod game;
pub mod index_game;
pub mod replay;
pub mod stub;

pub use game::{color_of, Game, GameStatus, LilaVariant, Player};
pub use index_game::{
    classify_game, game_info_for, index_classified, personal_merges, Classified, IndexedGame,
    PersonalMerge, SkipReason,
};
pub use replay::{build_table, collapse_repetitions, from_raw, replay, rules_of, Ply, RawUci};
pub use stub::{
    plan_index_player, responsible_indexer, Enqueued, IndexJob, IndexerOpt, Indexing,
    Registration, QUEUE_CAPACITY,
};
