//! Palimpsest: the logic of a self-editing scratchpad.
//!
//! Output is produced by revising a draft span by span. Four models take part: the
//! Drafter writes the draft, the Router scores positions, the Critic weighs spans
//! and halts the loop, the Editor predicts replacements. This library holds
//! everything around them that is not tensor arithmetic, each function with its
//! contract:
//!
//! * the scratchpad: [`span`], [`patch`], [`scratchpad`];
//! * the loop: [`router`], [`critic`], [`editor`], [`drafter`] and [`edit_loop`];
//! * the key-value recall task: [`vocab`], [`kv_task`], with [`tokenizer`] and
//!   [`text`] under it;
//! * training data: [`batch`], [`ablation`], [`corruption`], with [`random`] under
//!   it, and [`training`];
//! * judging: [`stats`], [`evaluation`], with [`score`], [`sorting`] and
//!   [`counting`] under them.
//!
//! Model outputs are real numbers. The library compares them and never computes
//! with them, so it holds them as bit patterns, see [`score`].

pub mod ablation;
pub mod batch;
pub mod corruption;
pub mod counting;
pub mod critic;
pub mod drafter;
pub mod edit_loop;
pub mod editor;
pub mod evaluation;
pub mod kv_task;
pub mod nn;
pub mod patch;
pub mod random;
pub mod router;
pub mod score;
pub mod scratchpad;
pub mod sorting;
pub mod span;
pub mod stats;
pub mod text;
pub mod tokenizer;
pub mod training;
pub mod vocab;

pub use ablation::{AblationConfig, AblationMetric, LabeledSequence, SpanWeight};
pub use batch::TokenBatch;
pub use kv_task::{generate_examples, KvExample, KvTaskConfig};
pub use patch::Patch;
pub use scratchpad::{EditRecord, ScratchpadState};
pub use span::Span;
pub use tokenizer::{CharTokenizer, TokenId, Tokenizer};
pub use vocab::KvVocab;
