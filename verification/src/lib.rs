//! Rules engine for a four-army chess variant played on an 8x8 board.
//!
//! Four armies, paired into two teams, move pieces over shared bitboards.
//! Kings are captured rather than checkmated; a captured king freezes its
//! army until an ally seizes its throne square. The engine covers the
//! bitboard board representation, per-piece pseudo-legal move generation
//! (including the variant's two-square leaping queen and the restricted
//! bishop/queen interaction), the legal-move filter that removes
//! self-check-exposing moves, and the game-state machine governing turns,
//! freezing, throne control, promotion, stalemate and victory.

pub mod engine;
