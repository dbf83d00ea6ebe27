//! The key-value recall task: a sequence lists key/value pairs, then queries
//! one key; the bound value must be recalled.

use crate::random;
use crate::random::{draw_half_open, draw_many, seeded, shuffle};
use crate::span::Span;
use crate::tokenizer::TokenId;
use crate::vocab;
use crate::vocab::KvVocab;
use rand::rngs::StdRng;
use vstd::prelude::*;
use vstd::slice::slice_subrange;

verus! {

/// Configuration for the key-value recall toy task.
///
/// Sequence layout (fixed length = 6 + 2 * num_pairs):
/// `BOS  k1 v1  k2 v2  ...  SEP  kq QUERY  answer  EOS`
#[derive(Debug, Clone, Copy)]
pub struct KvTaskConfig {
    pub num_keys: usize,
    pub num_values: usize,
    /// Pairs per sequence; keys within a sequence are distinct so every
    /// query has a unique correct answer.
    pub num_pairs: usize,
}

impl Default for KvTaskConfig {
    fn default() -> (r: KvTaskConfig)
        ensures
            r.num_keys == 8,
            r.num_values == 8,
            r.num_pairs == 4,
    {
        KvTaskConfig { num_keys: 8, num_values: 8, num_pairs: 4 }
    }
}

impl KvTaskConfig {
    pub open spec fn vocabulary(self) -> KvVocab {
        KvVocab { num_keys: self.num_keys, num_values: self.num_values }
    }

    /// Tokens per sequence.
    pub open spec fn length(self) -> int {
        6 + 2 * self.num_pairs
    }

    pub fn vocab(&self) -> (r: KvVocab)
        ensures
            r == self.vocabulary(),
            r.num_keys == self.num_keys,
            r.num_values == self.num_values,
    {
        KvVocab::new(self.num_keys, self.num_values)
    }

    pub fn seq_len(&self) -> (r: usize)
        requires
            self.length() <= usize::MAX,
        ensures
            r == self.length(),
            r == 6 + 2 * self.num_pairs,
    {
        6 + 2 * self.num_pairs
    }

    /// Index of the answer token (the value the model must recall).
    pub fn answer_pos(&self) -> (r: usize)
        requires
            self.length() <= usize::MAX,
        ensures
            r == self.length() - 2,
            r == 4 + 2 * self.num_pairs,
    {
        self.seq_len() - 2
    }
}

/// One generated example plus the metadata needed for sanity checks:
/// which pair was queried and where each pair sits.
#[derive(Debug, Clone)]
pub struct KvExample {
    pub tokens: Vec<TokenId>,
    pub answer_pos: usize,
    /// Span of each (key, value) pair, in order of appearance.
    pub pair_spans: Vec<Span>,
    /// Index into `pair_spans` of the queried pair.
    pub queried_pair: usize,
}

/// The contents of an example.
#[verifier::ext_equal]
pub struct ExampleView {
    pub tokens: Seq<TokenId>,
    pub answer_pos: int,
    pub pair_spans: Seq<Span>,
    pub queried_pair: int,
}

impl View for KvExample {
    type V = ExampleView;

    open spec fn view(&self) -> ExampleView {
        ExampleView {
            tokens: self.tokens@,
            answer_pos: self.answer_pos as int,
            pair_spans: self.pair_spans@,
            queried_pair: self.queried_pair as int,
        }
    }
}

impl KvExample {
    /// The span of the pair that causally determines the answer.
    pub fn queried_span(&self) -> (r: Span)
        requires
            self.queried_pair < self.pair_spans.len(),
        ensures
            r == self.pair_spans[self.queried_pair as int],
    {
        self.pair_spans[self.queried_pair]
    }
}

/// The tokens `k1 v1 k2 v2 ...` of the pairs.
pub open spec fn pair_tokens(
    vocab: KvVocab,
    keys: Seq<usize>,
    values: Seq<usize>,
) -> Seq<TokenId> {
    Seq::new(
        2 * keys.len(),
        |i: int|
            if i % 2 == 0 {
                (vocab::NUM_SPECIAL + keys[i / 2]) as TokenId
            } else {
                (vocab.key_end() + values[i / 2]) as TokenId
            },
    )
}

/// The sequence that binds each key to its value and queries pair `queried`.
pub open spec fn example_tokens(
    vocab: KvVocab,
    keys: Seq<usize>,
    values: Seq<usize>,
    queried: int,
) -> Seq<TokenId> {
    seq![vocab::BOS] + pair_tokens(vocab, keys, values) + seq![
        vocab::SEP,
        (vocab::NUM_SPECIAL + keys[queried]) as TokenId,
        vocab::QUERY,
        (vocab.key_end() + values[queried]) as TokenId,
        vocab::EOS,
    ]
}

/// The example for given keys, values and queried pair.
pub open spec fn example_of(
    config: KvTaskConfig,
    keys: Seq<usize>,
    values: Seq<usize>,
    queried: int,
) -> ExampleView {
    ExampleView {
        tokens: example_tokens(config.vocabulary(), keys, values, queried),
        answer_pos: config.length() - 2,
        pair_spans: Seq::new(
            keys.len(),
            |i: int| Span { start: (1 + 2 * i) as usize, end: (3 + 2 * i) as usize },
        ),
        queried_pair: queried,
    }
}

/// The keys, values and query that an example can be made of.
pub open spec fn fits_task(
    config: KvTaskConfig,
    keys: Seq<usize>,
    values: Seq<usize>,
    queried: int,
) -> bool {
    &&& keys.len() == config.num_pairs
    &&& values.len() == config.num_pairs
    &&& 0 <= queried < config.num_pairs
    &&& forall|i: int| 0 <= i < keys.len() ==> #[trigger] keys[i] < config.num_keys
    &&& forall|i: int| 0 <= i < values.len() ==> #[trigger] values[i] < config.num_values
}

/// Lays out the example for given keys, values and queried pair.
pub fn build_example(
    config: &KvTaskConfig,
    keys: &[usize],
    values: &[usize],
    queried_pair: usize,
) -> (r: KvExample)
    requires
        fits_task(*config, keys@, values@, queried_pair as int),
        config.vocabulary().ids_fit(),
        config.length() <= usize::MAX,
    ensures
        r@ == example_of(*config, keys@, values@, queried_pair as int),
        r.answer_pos == 4 + 2 * config.num_pairs,
        r.queried_pair == queried_pair,
        r.tokens@.len() == 6 + 2 * config.num_pairs,
        r.pair_spans@.len() == config.num_pairs,
{
    let vocab: KvVocab = config.vocab();
    let mut tokens: Vec<TokenId> = Vec::new();
    let mut pair_spans: Vec<Span> = Vec::new();
    tokens.push(vocab::BOS);
    let ghost pairs = pair_tokens(vocab, keys@, values@);
    let ghost goal = example_of(*config, keys@, values@, queried_pair as int);
    let mut i: usize = 0;
    while i < config.num_pairs
        invariant
            i <= config.num_pairs,
            vocab == config.vocabulary(),
            fits_task(*config, keys@, values@, queried_pair as int),
            config.vocabulary().ids_fit(),
            config.length() <= usize::MAX,
            pairs == pair_tokens(vocab, keys@, values@),
            goal == example_of(*config, keys@, values@, queried_pair as int),
            tokens@ == seq![vocab::BOS] + pairs.take(2 * i),
            pair_spans@ =~= goal.pair_spans.take(i as int),
        decreases config.num_pairs - i,
    {
        let start: usize = tokens.len();
        tokens.push(vocab.key_id(keys[i]));
        tokens.push(vocab.value_id(values[i]));
        pair_spans.push(Span::new(start, start + 2));
        i = i + 1;
    }
    tokens.push(vocab::SEP);
    tokens.push(vocab.key_id(keys[queried_pair]));
    tokens.push(vocab::QUERY);
    tokens.push(vocab.value_id(values[queried_pair]));
    tokens.push(vocab::EOS);
    let example = KvExample { tokens, answer_pos: config.answer_pos(), pair_spans, queried_pair };
    example
}

/// The examples made so far, the keys as last shuffled and the state.
#[verifier::ext_equal]
pub struct Generation {
    pub examples: Seq<ExampleView>,
    pub keys: Seq<usize>,
    pub state: Seq<u32>,
}

/// The first `count` examples from a seed: for each, shuffle the keys, draw a
/// value for each of the first `num_pairs` keys, and draw the queried pair.
pub open spec fn generated(config: KvTaskConfig, seed: u64, count: nat) -> Generation
    decreases count,
{
    if count == 0 {
        Generation {
            examples: Seq::empty(),
            keys: Seq::new(config.num_keys as nat, |i: int| i as usize),
            state: random::seeded_state(seed),
        }
    } else {
        let before = generated(config, seed, (count - 1) as nat);
        let order = random::shuffle_draw(before.state, before.keys.len());
        let keys = random::permuted(before.keys, order.0);
        let values = random::draws(order.1, 0, config.num_values, config.num_pairs as nat);
        let query = random::half_open_draw(values.1, 0, config.num_pairs);
        Generation {
            examples: before.examples.push(
                example_of(
                    config,
                    keys.take(config.num_pairs as int),
                    values.0,
                    query.0 as int,
                ),
            ),
            keys,
            state: query.1,
        }
    }
}

/// The example binds distinct keys of the task to values of the task and queries
/// one of them.
pub open spec fn is_task_example(config: KvTaskConfig, example: ExampleView) -> bool {
    exists|keys: Seq<usize>, values: Seq<usize>, queried: int|
        #[trigger] fits_task(config, keys, values, queried) && keys.no_duplicates() && example
            == example_of(config, keys, values, queried)
}

/// Deterministically generate `n` examples from `seed`.
pub fn generate_examples(config: &KvTaskConfig, n: usize, seed: u64) -> (r: Vec<KvExample>)
    requires
        config.num_pairs <= config.num_keys,
        n > 0 ==> config.num_pairs > 0 && config.num_values > 0,
        n > 0 ==> config.vocabulary().ids_fit() && config.length() <= usize::MAX,
    ensures
        r@.map_values(|e: KvExample| e@) == generated(*config, seed, n as nat).examples,
        r@.len() == n,
        forall|i: int| 0 <= i < r@.len() ==> is_task_example(*config, #[trigger] r@[i]@),
        forall|i: int|
            0 <= i < r@.len() ==> {
                let before = generated(*config, seed, i as nat);
                let order = random::shuffle_draw(before.state, before.keys.len());
                let values = random::draws(order.1, 0, config.num_values, config.num_pairs as nat);
                (#[trigger] r@[i]).queried_pair == random::half_open_draw(
                    values.1,
                    0,
                    config.num_pairs,
                ).0
            },
{
    let mut rng: StdRng = seeded(seed);
    let mut all_keys: Vec<usize> = Vec::new();
    let mut k: usize = 0;
    while k < config.num_keys
        invariant
            k <= config.num_keys,
            all_keys@ =~= Seq::new(k as nat, |i: int| i as usize),
        decreases config.num_keys - k,
    {
        all_keys.push(k);
        k = k + 1;
    }
    let mut examples: Vec<KvExample> = Vec::new();
    let ghost as_view = |e: KvExample| e@;
    let mut done: usize = 0;
    while done < n
        invariant
            done <= n,
            config.num_pairs <= config.num_keys,
            n > 0 ==> config.num_pairs > 0 && config.num_values > 0,
            n > 0 ==> config.vocabulary().ids_fit() && config.length() <= usize::MAX,
            as_view == (|e: KvExample| e@),
            ({
                let g = generated(*config, seed, done as nat);
                &&& examples@.map_values(as_view) == g.examples
                &&& all_keys@ == g.keys
                &&& random::generator_state(rng) == g.state
            }),
            examples@.len() == done,
            all_keys@.len() == config.num_keys,
            all_keys@.no_duplicates(),
            forall|i: int| 0 <= i < all_keys@.len() ==> #[trigger] all_keys@[i] < config.num_keys,
            forall|i: int| 0 <= i < done ==> is_task_example(*config, #[trigger] examples@[i]@),
        decreases n - done,
    {
        let ghost keys_before = all_keys@;
        let ghost state_before = random::generator_state(rng);
        shuffle(&mut all_keys, &mut rng);
        proof {
            let order = random::shuffle_draw(state_before, keys_before.len()).0;
            random::permuted_keeps_distinct(keys_before, order);
        }
        let keys: &[usize] = slice_subrange(all_keys.as_slice(), 0, config.num_pairs);
        let values: Vec<usize> = draw_many(&mut rng, 0, config.num_values, config.num_pairs);
        let queried_pair: usize = draw_half_open(&mut rng, 0, config.num_pairs);
        proof {
            assert(fits_task(*config, keys@, values@, queried_pair as int));
        }
        let example: KvExample = build_example(config, keys, values.as_slice(), queried_pair);
        examples.push(example);
        done = done + 1;
    }
    proof {
        assert forall|i: int| 0 <= i < examples@.len() implies ({
            let before = generated(*config, seed, i as nat);
            let order = random::shuffle_draw(before.state, before.keys.len());
            let values = random::draws(order.1, 0, config.num_values, config.num_pairs as nat);
            (#[trigger] examples@[i]).queried_pair == random::half_open_draw(
                values.1,
                0,
                config.num_pairs,
            ).0
        }) by {
            each_query_is_drawn_over_all_pairs(*config, seed, i as nat);
            longer_runs_extend_shorter_ones(*config, seed, (i + 1) as nat, n as nat);
            assert(examples@.map_values(as_view)[i] == examples@[i]@);
        }
    }
    examples
}

/// A longer run from the same seed starts with the examples of a shorter one.
pub proof fn longer_runs_extend_shorter_ones(
    config: KvTaskConfig,
    seed: u64,
    shorter: nat,
    longer: nat,
)
    requires
        shorter <= longer,
    ensures
        generated(config, seed, shorter).examples.len() == shorter,
        generated(config, seed, shorter).examples.is_prefix_of(
            generated(config, seed, longer).examples,
        ),
    decreases longer,
{
    if longer > 0 {
        let rest = (longer - 1) as nat;
        if shorter < longer {
            longer_runs_extend_shorter_ones(config, seed, shorter, rest);
        } else {
            longer_runs_extend_shorter_ones(config, seed, rest, rest);
        }
    }
}

/// The key token of pair `i`.
pub open spec fn pair_key(tokens: Seq<TokenId>, i: int) -> TokenId {
    tokens[1 + 2 * i]
}

/// The value token of pair `i`.
pub open spec fn pair_value(tokens: Seq<TokenId>, i: int) -> TokenId {
    tokens[2 + 2 * i]
}

/// Pair `i` is a key and a value.
pub open spec fn pair_well_formed(vocab: KvVocab, tokens: Seq<TokenId>, i: int) -> bool {
    vocab.holds_key(pair_key(tokens, i)) && vocab.holds_value(pair_value(tokens, i))
}

/// Pair `i` is the last one that binds `key`.
pub open spec fn binds_last(
    task: KvTaskConfig,
    tokens: Seq<TokenId>,
    key: TokenId,
    i: int,
) -> bool {
    &&& 0 <= i < task.num_pairs
    &&& pair_key(tokens, i) == key
    &&& forall|j: int| i < j < task.num_pairs ==> #[trigger] pair_key(tokens, j) != key
}

/// The layout tokens are in place, every pair is a key and a value, some pair
/// binds the queried key, and the answer is the value that the last such pair
/// binds it to.
pub open spec fn consistent(task: KvTaskConfig, vocab: KvVocab, tokens: Seq<TokenId>) -> bool {
    let sep = 1 + 2 * task.num_pairs;
    &&& tokens.len() == task.length()
    &&& tokens[0] == vocab::BOS
    &&& tokens[sep] == vocab::SEP
    &&& tokens[sep + 2] == vocab::QUERY
    &&& tokens[task.length() - 1] == vocab::EOS
    &&& forall|i: int|
        0 <= i < task.num_pairs ==> #[trigger] pair_well_formed(vocab, tokens, i)
    &&& exists|i: int|
        #[trigger] binds_last(task, tokens, tokens[sep + 1], i) && tokens[task.length() - 2]
            == pair_value(tokens, i)
}

/// Task-level correctness of a scratchpad, judged purely from task
/// structure (no model involved): layout tokens intact, all pairs
/// well-formed, the query key present among the pairs, and the answer
/// token equal to the queried key's bound value.
pub fn task_consistent(task: &KvTaskConfig, vocab: &KvVocab, tokens: &[TokenId]) -> (r: bool)
    requires
        task.length() <= usize::MAX,
        vocab.ids_fit(),
    ensures
        r == consistent(*task, *vocab, tokens@),
        r ==> forall|p: int|
            1 <= p <= 2 * task.num_pairs && p % 2 == 1 ==> 6 <= #[trigger] tokens@[p] < 6
                + vocab.num_keys,
        r ==> forall|p: int|
            1 <= p <= 2 * task.num_pairs && p % 2 == 0 ==> 6 + vocab.num_keys
                <= #[trigger] tokens@[p] < 6 + vocab.num_keys + vocab.num_values,
{
    proof {
        consistent_sequences_spell_the_task(*task, *vocab, tokens@);
    }
    if tokens.len() != task.seq_len() {
        return false;
    }
    let sep_pos: usize = 1 + 2 * task.num_pairs;
    let structure_ok: bool = tokens[0] == vocab::BOS && tokens[sep_pos] == vocab::SEP
        && tokens[sep_pos + 2] == vocab::QUERY && tokens[task.seq_len() - 1] == vocab::EOS;
    if !structure_ok {
        return false;
    }
    let query: TokenId = tokens[sep_pos + 1];
    let mut binding: Option<TokenId> = None;
    let ghost mut bound_at: int = -1;
    let mut i: usize = 0;
    while i < task.num_pairs
        invariant
            i <= task.num_pairs,
            tokens@.len() == task.length(),
            task.length() <= usize::MAX,
            vocab.ids_fit(),
            forall|j: int|
                0 <= j < i ==> #[trigger] pair_well_formed(*vocab, tokens@, j),
            match binding {
                Some(v) => 0 <= bound_at < i && pair_key(tokens@, bound_at) == query && v
                    == pair_value(tokens@, bound_at) && forall|j: int|
                    bound_at < j < i ==> #[trigger] pair_key(tokens@, j) != query,
                None => forall|j: int| 0 <= j < i ==> #[trigger] pair_key(tokens@, j) != query,
            },
        decreases task.num_pairs - i,
    {
        let k: TokenId = tokens[1 + 2 * i];
        let v: TokenId = tokens[2 + 2 * i];
        assert(pair_well_formed(*vocab, tokens@, i as int) == (vocab.holds_key(k)
            && vocab.holds_value(v)));
        if !vocab.is_key(k) || !vocab.is_value(v) {
            return false;
        }
        if k == query {
            binding = Some(v);
            proof {
                bound_at = i as int;
            }
        }
        i = i + 1;
    }
    match binding {
        Some(v) => {
            let answer: TokenId = tokens[task.answer_pos()];
            proof {
                assert(binds_last(*task, tokens@, query, bound_at));
            }
            answer == v
        },
        None => {
            false
        },
    }
}

proof fn lemma_example_pair(
    config: KvTaskConfig,
    keys: Seq<usize>,
    values: Seq<usize>,
    queried: int,
    i: int,
)
    requires
        fits_task(config, keys, values, queried),
        config.vocabulary().ids_fit(),
        0 <= i < config.num_pairs,
    ensures
        pair_key(example_of(config, keys, values, queried).tokens, i) == vocab::NUM_SPECIAL
            + keys[i],
        pair_value(example_of(config, keys, values, queried).tokens, i)
            == config.vocabulary().key_end() + values[i],
        config.vocabulary().holds_key(
            pair_key(example_of(config, keys, values, queried).tokens, i),
        ),
        config.vocabulary().holds_value(
            pair_value(example_of(config, keys, values, queried).tokens, i),
        ),
{
}

/// Every example of the task has the task's length, starts with BOS and ends with
/// EOS; the token before QUERY repeats the queried pair's key, and the answer
/// repeats its value; its keys are distinct; each pair span holds a key and its
/// value; and the sequence is consistent.
pub proof fn task_examples_are_consistent(config: KvTaskConfig, example: ExampleView)
    requires
        is_task_example(config, example),
        config.vocabulary().ids_fit(),
        config.length() <= usize::MAX,
    ensures
        example.tokens.len() == config.length(),
        example.answer_pos == config.length() - 2,
        example.tokens[0] == vocab::BOS,
        example.tokens.last() == vocab::EOS,
        example.pair_spans.len() == config.num_pairs,
        0 <= example.queried_pair < config.num_pairs,
        ({
            let q = example.pair_spans[example.queried_pair];
            &&& example.tokens[example.answer_pos] == example.tokens[q.start + 1]
            &&& example.tokens[example.answer_pos - 2] == example.tokens[q.start as int]
        }),
        forall|i: int|
            0 <= i < config.num_pairs ==> #[trigger] example.pair_spans[i] == (Span {
                start: (1 + 2 * i) as usize,
                end: (3 + 2 * i) as usize,
            }),
        forall|i: int, j: int|
            0 <= i < j < config.num_pairs ==> #[trigger] pair_key(example.tokens, i)
                != #[trigger] pair_key(example.tokens, j),
        consistent(config, config.vocabulary(), example.tokens),
{
    let (keys, values, queried) = choose|keys: Seq<usize>, values: Seq<usize>, queried: int|
        #[trigger] fits_task(config, keys, values, queried) && keys.no_duplicates() && example
            == example_of(config, keys, values, queried);
    let tokens = example.tokens;
    assert forall|i: int| 0 <= i < config.num_pairs implies #[trigger] pair_well_formed(
        config.vocabulary(),
        tokens,
        i,
    ) by {
        lemma_example_pair(config, keys, values, queried, i);
    }
    assert forall|i: int| 0 <= i < config.num_pairs implies #[trigger] pair_key(tokens, i)
        == vocab::NUM_SPECIAL + keys[i] by {
        lemma_example_pair(config, keys, values, queried, i);
    }
    lemma_example_pair(config, keys, values, queried, queried);
    let sep = 1 + 2 * config.num_pairs;
    assert(binds_last(config, tokens, tokens[sep + 1], queried));
}

/// Every query has one correct answer: with any other answer token the example
/// is no longer consistent.
pub proof fn answer_is_unique(config: KvTaskConfig, example: ExampleView, answer: TokenId)
    requires
        is_task_example(config, example),
        config.vocabulary().ids_fit(),
        config.length() <= usize::MAX,
    ensures
        consistent(
            config,
            config.vocabulary(),
            example.tokens.update(example.answer_pos, answer),
        ) <==> answer == example.tokens[example.answer_pos],
{
    task_examples_are_consistent(config, example);
    let tokens = example.tokens;
    let changed = tokens.update(example.answer_pos, answer);
    if answer == tokens[example.answer_pos] {
        assert(changed =~= tokens);
    } else {
    }
}

/// The queried pair alone decides the answer: rebinding any other key to any
/// value leaves the example consistent, and rebinding the queried key to another
/// value makes it inconsistent.
pub proof fn queried_pair_decides(
    config: KvTaskConfig,
    example: ExampleView,
    i: int,
    value: TokenId,
)
    requires
        is_task_example(config, example),
        config.vocabulary().ids_fit(),
        config.length() <= usize::MAX,
        0 <= i < config.num_pairs,
        config.vocabulary().holds_value(value),
    ensures
        consistent(config, config.vocabulary(), example.tokens.update(2 + 2 * i, value)) <==> (i
            != example.queried_pair || value == pair_value(example.tokens, i)),
{
    task_examples_are_consistent(config, example);
    let tokens = example.tokens;
    let changed = tokens.update(2 + 2 * i, value);
    let sep = 1 + 2 * config.num_pairs;
    let q = example.queried_pair;
    assert(binds_last(config, changed, changed[sep + 1], q));
}

/// A consistent sequence of `n` pairs has `6 + 2 * n` tokens: BOS; then, for each
/// pair `i`, a key id at position `1 + 2 * i` and a value id at `2 + 2 * i`; then
/// SEP, the queried key, QUERY, the answer and EOS. Some pair binds the queried
/// key, and the answer is the value of the last one that does.
pub proof fn consistent_sequences_spell_the_task(
    task: KvTaskConfig,
    vocab: KvVocab,
    tokens: Seq<TokenId>,
)
    ensures
        consistent(task, vocab, tokens) <==> {
            let n = task.num_pairs as int;
            &&& tokens.len() == 6 + 2 * n
            &&& tokens[0] == 1
            &&& tokens[1 + 2 * n] == 3
            &&& tokens[3 + 2 * n] == 4
            &&& tokens[5 + 2 * n] == 2
            &&& forall|p: int|
                1 <= p <= 2 * n && p % 2 == 1 ==> 6 <= #[trigger] tokens[p] < 6 + vocab.num_keys
            &&& forall|p: int|
                1 <= p <= 2 * n && p % 2 == 0 ==> 6 + vocab.num_keys <= #[trigger] tokens[p] < 6
                    + vocab.num_keys + vocab.num_values
            &&& exists|p: int|
                1 <= p <= 2 * n && p % 2 == 1 && #[trigger] tokens[p] == tokens[2 + 2 * n]
                    && tokens[4 + 2 * n] == tokens[p + 1] && forall|q: int|
                    p < q <= 2 * n && q % 2 == 1 ==> #[trigger] tokens[q] != tokens[2 + 2 * n]
        },
{
    let n = task.num_pairs as int;
    let sep = 1 + 2 * n;
    if consistent(task, vocab, tokens) {
        assert forall|p: int| 1 <= p <= 2 * n && p % 2 == 1 implies 6 <= #[trigger] tokens[p] < 6
            + vocab.num_keys by {
            assert(pair_well_formed(vocab, tokens, (p - 1) / 2));
        }
        assert forall|p: int| 1 <= p <= 2 * n && p % 2 == 0 implies 6 + vocab.num_keys
            <= #[trigger] tokens[p] < 6 + vocab.num_keys + vocab.num_values by {
            assert(pair_well_formed(vocab, tokens, (p - 2) / 2));
        }
        let i = choose|i: int|
            #[trigger] binds_last(task, tokens, tokens[sep + 1], i) && tokens[task.length() - 2]
                == pair_value(tokens, i);
        let p = 1 + 2 * i;
        assert(tokens[p] == tokens[2 + 2 * n]);
        assert forall|q: int| p < q <= 2 * n && q % 2 == 1 implies #[trigger] tokens[q]
            != tokens[2 + 2 * n] by {
            assert(pair_key(tokens, (q - 1) / 2) != tokens[sep + 1]);
        }
    }
    let spelled = {
        &&& tokens.len() == 6 + 2 * n
        &&& tokens[0] == 1
        &&& tokens[1 + 2 * n] == 3
        &&& tokens[3 + 2 * n] == 4
        &&& tokens[5 + 2 * n] == 2
        &&& forall|p: int|
            1 <= p <= 2 * n && p % 2 == 1 ==> 6 <= #[trigger] tokens[p] < 6 + vocab.num_keys
        &&& forall|p: int|
            1 <= p <= 2 * n && p % 2 == 0 ==> 6 + vocab.num_keys <= #[trigger] tokens[p] < 6
                + vocab.num_keys + vocab.num_values
        &&& exists|p: int|
            1 <= p <= 2 * n && p % 2 == 1 && #[trigger] tokens[p] == tokens[2 + 2 * n]
                && tokens[4 + 2 * n] == tokens[p + 1] && forall|q: int|
                p < q <= 2 * n && q % 2 == 1 ==> #[trigger] tokens[q] != tokens[2 + 2 * n]
    };
    if spelled {
        let p = choose|p: int|
            1 <= p <= 2 * n && p % 2 == 1 && #[trigger] tokens[p] == tokens[2 + 2 * n]
                && tokens[4 + 2 * n] == tokens[p + 1] && forall|q: int|
                p < q <= 2 * n && q % 2 == 1 ==> #[trigger] tokens[q] != tokens[2 + 2 * n];
        assert(binds_last(task, tokens, tokens[sep + 1], (p - 1) / 2));
    }
}

/// Every pair is checked at both places: a token that is no key in any pair's key
/// place, or one that is no value in any pair's value place, makes every sequence
/// inconsistent.
pub proof fn a_misplaced_token_is_noticed(
    task: KvTaskConfig,
    vocab: KvVocab,
    tokens: Seq<TokenId>,
    i: int,
    wrong: TokenId,
)
    requires
        0 <= i < task.num_pairs,
        2 + 2 * i < tokens.len(),
    ensures
        !(6 <= wrong < 6 + vocab.num_keys) ==> !consistent(
            task,
            vocab,
            tokens.update(1 + 2 * i, wrong),
        ),
        !(6 + vocab.num_keys <= wrong < 6 + vocab.num_keys + vocab.num_values) ==> !consistent(
            task,
            vocab,
            tokens.update(2 + 2 * i, wrong),
        ),
{
    let no_key = tokens.update(1 + 2 * i, wrong);
    let no_value = tokens.update(2 + 2 * i, wrong);
    consistent_sequences_spell_the_task(task, vocab, no_key);
    consistent_sequences_spell_the_task(task, vocab, no_value);
    assert(no_key[1 + 2 * i] == wrong);
    assert(no_value[2 + 2 * i] == wrong);
}

/// Every layout token is checked: a sequence with anything else at the place of
/// BOS, SEP, QUERY or EOS is inconsistent, and so is one of any other length.
pub proof fn a_broken_layout_is_noticed(
    task: KvTaskConfig,
    vocab: KvVocab,
    tokens: Seq<TokenId>,
)
    ensures
        tokens.len() != 6 + 2 * task.num_pairs ==> !consistent(task, vocab, tokens),
        tokens[0] != vocab::BOS ==> !consistent(task, vocab, tokens),
        tokens[1 + 2 * task.num_pairs] != vocab::SEP ==> !consistent(task, vocab, tokens),
        tokens[3 + 2 * task.num_pairs] != vocab::QUERY ==> !consistent(task, vocab, tokens),
        tokens[5 + 2 * task.num_pairs] != vocab::EOS ==> !consistent(task, vocab, tokens),
{
    consistent_sequences_spell_the_task(task, vocab, tokens);
}

/// An example made of `n` keys and values has BOS at 0; key `i` at `1 + 2 * i` and
/// its value at `2 + 2 * i`; SEP at `1 + 2 * n`; the queried pair's key and, after
/// QUERY, its value; and EOS last. Keys are numbered from 6, values after the keys.
/// Pair `i` spans its two tokens, and the answer stands before the last token.
pub proof fn examples_are_laid_out_pair_by_pair(
    config: KvTaskConfig,
    keys: Seq<usize>,
    values: Seq<usize>,
    queried: int,
)
    requires
        keys.len() == config.num_pairs,
    ensures
        ({
            let n = keys.len() as int;
            let example = example_of(config, keys, values, queried);
            &&& example.tokens.len() == 6 + 2 * n
            &&& example.tokens[0] == 1
            &&& forall|i: int|
                #![trigger example.pair_spans[i]]
                0 <= i < n ==> example.tokens[1 + 2 * i] == (6 + keys[i]) as TokenId
                    && example.tokens[2 + 2 * i] == (6 + config.num_keys + values[i]) as TokenId
                    && example.pair_spans[i].start == (1 + 2 * i) as usize
                    && example.pair_spans[i].end == (3 + 2 * i) as usize
            &&& example.tokens[1 + 2 * n] == 3
            &&& example.tokens[2 + 2 * n] == (6 + keys[queried]) as TokenId
            &&& example.tokens[3 + 2 * n] == 4
            &&& example.tokens[4 + 2 * n] == (6 + config.num_keys + values[queried]) as TokenId
            &&& example.tokens[5 + 2 * n] == 2
            &&& example.pair_spans.len() == n
            &&& example.answer_pos == 4 + 2 * n
            &&& example.queried_pair == queried
        }),
{
    let n = keys.len() as int;
    let example = example_of(config, keys, values, queried);
    let pairs = pair_tokens(config.vocabulary(), keys, values);
    assert(pairs.len() == 2 * n);
    assert forall|i: int|
        #![trigger example.pair_spans[i]]
        0 <= i < n implies example.tokens[1 + 2 * i] == (6 + keys[i]) as TokenId
        && example.tokens[2 + 2 * i] == (6 + config.num_keys + values[i]) as TokenId && example.pair_spans[i].start == (1 + 2 * i) as usize
        && example.pair_spans[i].end == (3 + 2 * i) as usize by {
        assert(example.tokens[1 + 2 * i] == pairs[2 * i]);
        assert(example.tokens[2 + 2 * i] == pairs[2 * i + 1]);
        assert((2 * i) / 2 == i);
        assert((2 * i + 1) / 2 == i);
    }
}

proof fn lemma_first_keys_are_bound(
    config: KvTaskConfig,
    keys: Seq<usize>,
    values: Seq<usize>,
    q: int,
)
    requires
        config.num_pairs <= keys.len(),
    ensures
        ({
            let example = example_of(config, keys.take(config.num_pairs as int), values, q);
            &&& example.tokens.len() == 6 + 2 * config.num_pairs
            &&& forall|p: int|
                1 <= p <= 2 * config.num_pairs ==> #[trigger] example.tokens[p] == if p % 2 == 1 {
                    (6 + keys[(p - 1) / 2]) as TokenId
                } else {
                    (6 + config.num_keys + values[(p - 2) / 2]) as TokenId
                }
            &&& 0 <= q < config.num_pairs ==> example.tokens[2 + 2 * config.num_pairs] == (6
                + keys[q]) as TokenId && example.tokens[4 + 2 * config.num_pairs] == (6
                + config.num_keys + values[q]) as TokenId
        }),
{
    let first = keys.take(config.num_pairs as int);
    let example = example_of(config, first, values, q);
    examples_are_laid_out_pair_by_pair(config, first, values, q);
    assert forall|p: int| 1 <= p <= 2 * config.num_pairs implies #[trigger] example.tokens[p]
        == if p % 2 == 1 {
        (6 + keys[(p - 1) / 2]) as TokenId
    } else {
        (6 + config.num_keys + values[(p - 2) / 2]) as TokenId
    } by {
        let i = (p - 1) / 2;
        assert(first[i] == keys[i]);
        assert(example.pair_spans[i].start == (1 + 2 * i) as usize);
        assert(p == 1 + 2 * i || p == 2 + 2 * i);
    }
}

proof fn lemma_next_example(config: KvTaskConfig, seed: u64, k: nat)
    ensures
        ({
            let before = generated(config, seed, k);
            let after = generated(config, seed, k + 1);
            let order = random::shuffle_draw(before.state, before.keys.len());
            let values = random::draws(order.1, 0, config.num_values, config.num_pairs as nat);
            let query = random::half_open_draw(values.1, 0, config.num_pairs);
            &&& before.examples.len() == k
            &&& after.examples == before.examples.push(
                example_of(
                    config,
                    after.keys.take(config.num_pairs as int),
                    values.0,
                    query.0 as int,
                ),
            )
        }),
{
    longer_runs_extend_shorter_ones(config, seed, k, k + 1);
}

/// The next example of a run takes three draws, one after another: the keys, as
/// the run left them, are shuffled; values are drawn; and the queried pair is
/// drawn over the whole range `0..num_pairs`, from the state that the values
/// leave. So any pair of the example can be the queried one. The run goes on from
/// the state that this last draw leaves, and the examples before stay.
pub proof fn each_query_is_drawn_over_all_pairs(config: KvTaskConfig, seed: u64, k: nat)
    ensures
        ({
            let before = generated(config, seed, k);
            let after = generated(config, seed, k + 1);
            let order = random::shuffle_draw(before.state, before.keys.len());
            let values = random::draws(order.1, 0, config.num_values, config.num_pairs as nat);
            let query = random::half_open_draw(values.1, 0, config.num_pairs);
            &&& after.examples.len() == k + 1
            &&& after.examples[k as int].queried_pair == query.0
            &&& after.examples.take(k as int) == before.examples
            &&& after.keys.len() == order.0.len()
            &&& forall|i: int|
                0 <= i < order.0.len() ==> #[trigger] after.keys[i] == before.keys[order.0[i]]
            &&& after.state == query.1
        }),
{
    lemma_next_example(config, seed, k);
    assert(generated(config, seed, k + 1).examples.take(k as int) =~= generated(
        config,
        seed,
        k,
    ).examples);
}

/// The next example of a run binds the first `num_pairs` of the shuffled keys, in
/// their order, each to the value drawn for it over all `num_values`; the query
/// repeats the key of the queried pair, and the answer its value.
pub proof fn each_example_binds_the_drawn_values(config: KvTaskConfig, seed: u64, k: nat)
    ensures
        ({
            let before = generated(config, seed, k);
            let after = generated(config, seed, k + 1);
            let order = random::shuffle_draw(before.state, before.keys.len());
            let values = random::draws(order.1, 0, config.num_values, config.num_pairs as nat).0;
            let tokens = after.examples[k as int].tokens;
            let q = after.examples[k as int].queried_pair;
            config.num_pairs <= after.keys.len() ==> {
                &&& tokens.len() == 6 + 2 * config.num_pairs
                &&& forall|p: int|
                    1 <= p <= 2 * config.num_pairs ==> #[trigger] tokens[p] == if p % 2 == 1 {
                        (6 + after.keys[(p - 1) / 2]) as TokenId
                    } else {
                        (6 + config.num_keys + values[(p - 2) / 2]) as TokenId
                    }
                &&& 0 <= q < config.num_pairs ==> tokens[2 + 2 * config.num_pairs] == (6
                    + after.keys[q]) as TokenId && tokens[4 + 2 * config.num_pairs] == (6
                    + config.num_keys + values[q]) as TokenId
            }
        }),
{
    lemma_next_example(config, seed, k);
    let before = generated(config, seed, k);
    let after = generated(config, seed, k + 1);
    let order = random::shuffle_draw(before.state, before.keys.len());
    let values = random::draws(order.1, 0, config.num_values, config.num_pairs as nat).0;
    let q = after.examples[k as int].queried_pair;
    if config.num_pairs <= after.keys.len() {
        lemma_first_keys_are_bound(config, after.keys, values, q);
    }
}

/// A run starts with the keys in their own order and the generator as seeded.
pub proof fn runs_start_from_the_seed(config: KvTaskConfig, seed: u64)
    ensures
        generated(config, seed, 0).examples.len() == 0,
        generated(config, seed, 0).keys.len() == config.num_keys,
        forall|i: int|
            0 <= i < config.num_keys ==> #[trigger] generated(config, seed, 0).keys[i] == i,
        generated(config, seed, 0).state == random::seeded_state(seed),
{
}

/// The contents of an example are its fields, as they stand.
pub proof fn contents_are_the_fields(example: KvExample)
    ensures
        example@.tokens == example.tokens@,
        example@.answer_pos == example.answer_pos,
        example@.pair_spans == example.pair_spans@,
        example@.queried_pair == example.queried_pair,
{
}

} // verus!
